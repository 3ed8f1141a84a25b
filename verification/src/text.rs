//! Joining strings with a separator.
use vstd::prelude::*;
use vstd::string::*;
use crate::types::strings_view;

verus! {

broadcast use vstd::string::group_string_axioms;

/// The items one after the other, with `sep` between each two neighbours.
pub open spec fn seq_join(items: Seq<Seq<char>>, sep: Seq<char>) -> Seq<char>
    decreases items.len(),
{
    if items.len() == 0 {
        Seq::empty()
    } else if items.len() == 1 {
        items[0]
    } else {
        seq_join(items.drop_last(), sep) + sep + items.last()
    }
}

/// Joining puts the separator only between neighbours: nothing for no
/// items, the item itself for one, and one more item adds the separator and
/// that item at the end.
pub proof fn law_join(items: Seq<Seq<char>>, x: Seq<char>, sep: Seq<char>)
    ensures
        seq_join(Seq::empty(), sep) == Seq::<char>::empty(),
        seq_join(seq![x], sep) == x,
        items.len() > 0 ==> seq_join(items.push(x), sep) == seq_join(items, sep) + sep + x,
{
    assert(items.push(x).drop_last() =~= items);
}

/// `count` copies of `item`.
pub open spec fn repeated(item: Seq<char>, count: nat) -> Seq<Seq<char>> {
    Seq::new(count, |k: int| item)
}

/// The characters of `input`, in order.
pub fn collect_chars(input: &str) -> (v: Vec<char>)
    ensures
        v@ == input@,
{
    let mut v: Vec<char> = Vec::new();
    for c in it: input.chars()
        invariant
            v@ == it.seq().take(it.index()),
            it.seq() == input@,
    {
        v.push(c);
    }
    v
}

/// Joins the strings with `sep` between each two neighbours.
pub fn join_strings(items: &Vec<String>, sep: &str) -> (r: String)
    ensures
        r@ == seq_join(strings_view(items@), sep@),
{
    let mut r = String::new();
    let ghost v = strings_view(items@);
    for i in 0..items.len()
        invariant
            v == strings_view(items@),
            r@ == seq_join(v.take(i as int), sep@),
    {
        assert(v.take(i + 1).drop_last() =~= v.take(i as int));
        if i != 0 {
            r.append(sep);
        } else {
            assert(seq_join(v.take(0), sep@) =~= Seq::<char>::empty());
        }
        r.append(items[i].as_str());
        assert(v.take(i + 1).last() == items@[i as int]@);
        assert(r@ =~= seq_join(v.take(i + 1), sep@));
    }
    assert(v.take(items.len() as int) =~= v);
    r
}

/// `count` copies of `item` joined with `sep`.
pub fn repeat_join(item: &String, count: usize, sep: &str) -> (r: String)
    ensures
        r@ == seq_join(repeated(item@, count as nat), sep@),
{
    let mut r = String::new();
    for k in 0..count
        invariant
            r@ == seq_join(repeated(item@, k as nat), sep@),
    {
        assert(repeated(item@, (k + 1) as nat).drop_last() =~= repeated(item@, k as nat));
        if k != 0 {
            r.append(sep);
        }
        r.append(item.as_str());
        assert(r@ =~= seq_join(repeated(item@, (k + 1) as nat), sep@));
    }
    r
}

} // verus!
