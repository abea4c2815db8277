use vstd::prelude::*;

verus! {

/// A decoded value: the result of one successful decode.
///
/// A dictionary holds its pairs in first-appearance order with unique
/// keys; when a key occurs twice in the input, the later value wins.
/// Keys are not required to arrive in sorted byte order: canonical-form
/// checking is deliberately not enforced by the decoder.
#[derive(Debug, PartialEq, Eq)]
pub enum BencodeValue {
    Integer(i64),
    ByteString(Vec<u8>),
    List(Vec<BencodeValue>),
    Dict(Vec<(Vec<u8>, BencodeValue)>),
}

/// The mathematical model of a decoded value tree.
pub enum SpecValue {
    Integer(int),
    ByteString(Seq<u8>),
    List(Seq<SpecValue>),
    Dict(Map<Seq<u8>, SpecValue>),
}

/// The model of a value: integers and bytes become their mathematical
/// counterparts, a dictionary becomes a map in which a later pair with the
/// same key overwrites an earlier one.
pub open spec fn view_of(v: BencodeValue) -> SpecValue
    decreases v,
{
    match v {
        BencodeValue::Integer(i) => SpecValue::Integer(i as int),
        BencodeValue::ByteString(b) => SpecValue::ByteString(b@),
        BencodeValue::List(items) => SpecValue::List(views_of_seq(items@)),
        BencodeValue::Dict(pairs) => SpecValue::Dict(dict_map_of(pairs@)),
    }
}

pub open spec fn views_of_seq(s: Seq<BencodeValue>) -> Seq<SpecValue>
    decreases s,
{
    if s.len() == 0 {
        Seq::empty()
    } else {
        seq![view_of(s[0])] + views_of_seq(s.subrange(1, s.len() as int))
    }
}

pub open spec fn dict_map_of(ps: Seq<(Vec<u8>, BencodeValue)>) -> Map<Seq<u8>, SpecValue>
    decreases ps,
{
    if ps.len() == 0 {
        Map::empty()
    } else {
        dict_map_of(ps.subrange(0, ps.len() - 1)).insert(ps.last().0@, view_of(ps.last().1))
    }
}

/// No two pairs carry the same key.
pub open spec fn unique_keys(ps: Seq<(Vec<u8>, BencodeValue)>) -> bool {
    forall|i: int, j: int| 0 <= i < j < ps.len() ==> (#[trigger] ps[i]).0@ != (#[trigger] ps[j]).0@
}

/// Well-formedness of a value tree: every dictionary in it holds each key
/// once.  The decoder only ever returns well-formed values.
pub open spec fn wf_value(v: BencodeValue) -> bool
    decreases v,
{
    match v {
        BencodeValue::Integer(_) => true,
        BencodeValue::ByteString(_) => true,
        BencodeValue::List(items) => forall|i: int|
            0 <= i < items@.len() ==> wf_value(#[trigger] items@[i]),
        BencodeValue::Dict(pairs) => unique_keys(pairs@) && forall|i: int|
            0 <= i < pairs@.len() ==> wf_value((#[trigger] pairs@[i]).1),
    }
}

pub proof fn lemma_views_of_seq_push(s: Seq<BencodeValue>, v: BencodeValue)
    ensures
        views_of_seq(s.push(v)) == views_of_seq(s).push(view_of(v)),
    decreases s,
{
    reveal_with_fuel(views_of_seq, 2);
    if s.len() == 0 {
        assert(s.push(v).subrange(1, s.push(v).len() as int) =~= Seq::<BencodeValue>::empty());
        assert(s.push(v)[0] == v);
        assert(views_of_seq(s.push(v)) == seq![view_of(v)] + Seq::<SpecValue>::empty());
        assert(views_of_seq(s.push(v)) =~= views_of_seq(s).push(view_of(v)));
    } else {
        let t = s.subrange(1, s.len() as int);
        assert(s.push(v).subrange(1, s.push(v).len() as int) =~= t.push(v));
        lemma_views_of_seq_push(t, v);
        assert(s.push(v)[0] == s[0]);
        assert(views_of_seq(s.push(v)) == seq![view_of(s[0])] + views_of_seq(t).push(view_of(v)));
        assert(views_of_seq(s) == seq![view_of(s[0])] + views_of_seq(t));
        assert(seq![view_of(s[0])] + views_of_seq(t).push(view_of(v)) =~= (seq![view_of(s[0])]
            + views_of_seq(t)).push(view_of(v)));
    }
}

pub proof fn lemma_dict_map_of_push(ps: Seq<(Vec<u8>, BencodeValue)>, k: Vec<u8>, v: BencodeValue)
    ensures
        dict_map_of(ps.push((k, v))) == dict_map_of(ps).insert(k@, view_of(v)),
{
    assert(ps.push((k, v)).subrange(0, ps.len() as int) =~= ps);
}

pub proof fn lemma_dict_map_of_update(
    ps: Seq<(Vec<u8>, BencodeValue)>,
    i: int,
    k: Vec<u8>,
    v: BencodeValue,
)
    requires
        unique_keys(ps),
        0 <= i < ps.len(),
        ps[i].0@ == k@,
    ensures
        dict_map_of(ps.update(i, (k, v))) == dict_map_of(ps).insert(k@, view_of(v)),
    decreases ps,
{
    let upd = ps.update(i, (k, v));
    if i == ps.len() - 1 {
        assert(upd.subrange(0, ps.len() - 1) =~= ps.subrange(0, ps.len() - 1));
        assert(upd.last() == (k, v));
        assert(dict_map_of(upd) =~= dict_map_of(ps).insert(k@, view_of(v)));
    } else {
        let pre = ps.subrange(0, ps.len() - 1);
        assert(upd.subrange(0, ps.len() - 1) =~= pre.update(i, (k, v)));
        assert(forall|a: int, b: int|
            0 <= a < b < pre.len() ==> (#[trigger] pre[a]).0@ != (#[trigger] pre[b]).0@);
        lemma_dict_map_of_update(pre, i, k, v);
        assert(upd.last() == ps.last());
        // the updated key differs from the last pair's key, so the two
        // inserts commute
        assert(ps[i].0@ != ps.last().0@);
        assert(dict_map_of(upd) =~= dict_map_of(ps).insert(k@, view_of(v)));
    }
}

/// A dictionary's map binds each key to the value of that key's last pair:
/// a pair decoded later overwrites an earlier pair with the same key.
pub proof fn lemma_last_binding_wins(ps: Seq<(Vec<u8>, BencodeValue)>, i: int)
    requires
        0 <= i < ps.len(),
        forall|j: int| i < j < ps.len() ==> (#[trigger] ps[j]).0@ != ps[i].0@,
    ensures
        dict_map_of(ps).dom().contains(ps[i].0@),
        dict_map_of(ps)[ps[i].0@] == view_of(ps[i].1),
    decreases ps,
{
    if i < ps.len() - 1 {
        let pre = ps.subrange(0, ps.len() - 1);
        assert(pre[i] == ps[i]);
        assert(forall|j: int| i < j < pre.len() ==> (#[trigger] pre[j]).0@ != pre[i].0@);
        lemma_last_binding_wins(pre, i);
        assert(ps.last().0@ != ps[i].0@);
    }
}

} // verus!
