//! Numbers and lists as text.
use vstd::prelude::*;
use vstd::string::{StrSliceExecFns, StringExecFns};

verus! {

/// A text.
pub type Text = Seq<char>;

/// What the strings of a list hold.
pub open spec fn texts(list: Seq<String>) -> Seq<Text> {
    list.map_values(|s: String| s@)
}

/// The digit of a number below ten.
pub open spec fn digit(n: nat) -> Text {
    if n == 0 {
        "0"@
    } else if n == 1 {
        "1"@
    } else if n == 2 {
        "2"@
    } else if n == 3 {
        "3"@
    } else if n == 4 {
        "4"@
    } else if n == 5 {
        "5"@
    } else if n == 6 {
        "6"@
    } else if n == 7 {
        "7"@
    } else if n == 8 {
        "8"@
    } else {
        "9"@
    }
}

/// A number in decimal.
pub open spec fn decimal(n: nat) -> Text
    decreases n,
{
    if n < 10 {
        digit(n)
    } else {
        decimal(n / 10) + digit(n % 10)
    }
}

/// Texts one after the other, with a separator between them.
pub open spec fn joined(list: Seq<Text>, separator: Text) -> Text
    decreases list.len(),
{
    if list.len() == 0 {
        seq![]
    } else if list.len() == 1 {
        list[0]
    } else {
        joined(list.drop_last(), separator) + separator + list.last()
    }
}

/// Two texts first differ at a place, where the first has the lower character or ends.
pub open spec fn differs_below(a: Text, b: Text, i: int) -> bool {
    &&& 0 <= i <= a.len()
    &&& i < b.len()
    &&& forall|j: int| 0 <= j < i ==> a[j] == b[j]
    &&& i == a.len() || a[i] < b[i]
}

/// A text comes before another in the order of a dictionary.
pub open spec fn text_below(a: Text, b: Text) -> bool {
    exists|i: int| differs_below(a, b, i)
}

/// A sorted list with one more text.
pub open spec fn insert_text(list: Seq<Text>, t: Text) -> Seq<Text>
    decreases list.len(),
{
    if list.len() == 0 || !text_below(t, list.last()) {
        list.push(t)
    } else {
        insert_text(list.drop_last(), t).push(list.last())
    }
}

/// A list of texts in the order of a dictionary.
pub open spec fn sorted_texts(list: Seq<Text>) -> Seq<Text>
    decreases list.len(),
{
    if list.len() == 0 {
        seq![]
    } else {
        insert_text(sorted_texts(list.drop_last()), list.last())
    }
}

/// The digit of a number below ten.
fn write_digit(text: &mut String, n: u128)
    requires
        n < 10,
    ensures
        final(text)@ == old(text)@ + digit(n as nat),
{
    if n == 0 {
        text.append("0");
    } else if n == 1 {
        text.append("1");
    } else if n == 2 {
        text.append("2");
    } else if n == 3 {
        text.append("3");
    } else if n == 4 {
        text.append("4");
    } else if n == 5 {
        text.append("5");
    } else if n == 6 {
        text.append("6");
    } else if n == 7 {
        text.append("7");
    } else if n == 8 {
        text.append("8");
    } else {
        text.append("9");
    }
}

/// Adds a number in decimal to a text.
pub fn write_decimal(text: &mut String, n: u128)
    ensures
        final(text)@ == old(text)@ + decimal(n as nat),
    decreases n,
{
    if n < 10 {
        write_digit(text, n);
    } else {
        let ghost before = text@;
        write_decimal(text, n / 10);
        write_digit(text, n % 10);
        assert(text@ =~= before + decimal(n as nat));
    }
}

/// Puts texts one after the other, with a separator between them.
pub fn join(list: &Vec<String>, separator: &str) -> (r: String)
    ensures
        r@ == joined(texts(list@), separator@),
{
    let ghost all = texts(list@);
    let mut r: String = String::new();
    let mut i: usize = 0;
    assert(r@ =~= joined(all.take(0), separator@));
    while i < list.len()
        invariant
            i <= list@.len(),
            all == texts(list@),
            r@ == joined(all.take(i as int), separator@),
        decreases list@.len() - i,
    {
        let ghost before = r@;
        if i > 0 {
            r.append(separator);
        }
        r.append(list[i].as_str());
        proof {
            assert(all.take(i + 1).drop_last() =~= all.take(i as int));
            assert(all.take(i + 1).last() == list@[i as int]@);
            assert(all.take(i + 1)[i as int] == list@[i as int]@);
            assert(r@ =~= joined(all.take(i + 1), separator@));
        }
        i = i + 1;
    }
    assert(all.take(i as int) =~= all);
    r
}

/// Says whether a text comes before another in the order of a dictionary.
fn is_text_below(a: &str, b: &str) -> (r: bool)
    ensures
        r == text_below(a@, b@),
{
    let n: usize = a.unicode_len();
    let m: usize = b.unicode_len();
    let mut i: usize = 0;
    while i < n && i < m
        invariant
            i <= n,
            i <= m,
            n == a@.len(),
            m == b@.len(),
            forall|j: int| 0 <= j < i ==> a@[j] == b@[j],
        decreases n - i,
    {
        let x: char = a.get_char(i);
        let y: char = b.get_char(i);
        if x < y {
            assert(differs_below(a@, b@, i as int));
            return true;
        }
        if x != y {
            assert forall|k: int| !differs_below(a@, b@, k) by {
                if k < i {
                    assert(0 <= k ==> a@[k] == b@[k]);
                } else if k > i {
                    assert(a@[i as int] != b@[i as int]);
                }
            }
            return false;
        }
        i = i + 1;
    }
    if i < m {
        assert(differs_below(a@, b@, i as int));
        return true;
    }
    assert forall|k: int| !differs_below(a@, b@, k) by {
        if 0 <= k < i {
            assert(a@[k] == b@[k]);
        }
    }
    false
}

/// Where a text goes in a sorted list.
proof fn lemma_insert_place(list: Seq<Text>, t: Text, k: int)
    requires
        0 <= k <= list.len(),
        forall|j: int| k <= j < list.len() ==> text_below(t, #[trigger] list[j]),
        k == 0 || !text_below(t, list[k - 1]),
    ensures
        insert_text(list, t) == list.insert(k, t),
    decreases list.len(),
{
    if k == list.len() {
        assert(list.insert(k, t) =~= list.push(t));
    } else {
        let rest = list.drop_last();
        assert(text_below(t, list[list.len() - 1]));
        assert forall|j: int| k <= j < rest.len() implies text_below(t, #[trigger] rest[j]) by {
            assert(rest[j] == list[j]);
        }
        lemma_insert_place(rest, t, k);
        assert(rest.insert(k, t).push(list.last()) =~= list.insert(k, t));
    }
}

/// Sorts texts in the order of a dictionary.
pub fn sort_texts(list: Vec<String>) -> (r: Vec<String>)
    ensures
        texts(r@) == sorted_texts(texts(list@)),
{
    let ghost all = texts(list@);
    let mut r: Vec<String> = Vec::new();
    let mut i: usize = 0;
    assert(texts(r@) =~= sorted_texts(all.take(0)));
    while i < list.len()
        invariant
            i <= list@.len(),
            all == texts(list@),
            texts(r@) == sorted_texts(all.take(i as int)),
        decreases list@.len() - i,
    {
        let item: String = list[i].clone();
        let ghost held = texts(r@);
        let mut k: usize = r.len();
        while k > 0 && is_text_below(item.as_str(), r[k - 1].as_str())
            invariant
                k <= r@.len(),
                held == texts(r@),
                forall|j: int| k <= j < held.len() ==> text_below(item@, #[trigger] held[j]),
            decreases k,
        {
            k = k - 1;
        }
        proof {
            lemma_insert_place(held, item@, k as int);
            assert(all.take(i + 1).drop_last() =~= all.take(i as int));
            assert(all.take(i + 1).last() == item@);
        }
        let ghost t = item@;
        r.insert(k, item);
        assert(texts(r@) =~= held.insert(k as int, t));
        i = i + 1;
    }
    assert(all.take(i as int) =~= all);
    r
}

/// A list of texts in the order of a dictionary.
pub open spec fn texts_ascend(list: Seq<Text>) -> bool {
    forall|i: int, j: int|
        0 <= i < j < list.len() ==> !text_below(#[trigger] list[j], #[trigger] list[i])
}

/// No text comes before another that comes before it.
proof fn lemma_below_asymmetric(a: Text, b: Text)
    requires
        text_below(a, b),
    ensures
        !text_below(b, a),
{
    let i = choose|i: int| differs_below(a, b, i);
    assert(differs_below(a, b, i));
    if text_below(b, a) {
        let k = choose|k: int| differs_below(b, a, k);
        assert(differs_below(b, a, k));
    }
}

/// The order of a dictionary is transitive.
proof fn lemma_below_transitive(a: Text, b: Text, c: Text)
    requires
        text_below(a, b),
        text_below(b, c),
    ensures
        text_below(a, c),
{
    let i = choose|i: int| differs_below(a, b, i);
    let k = choose|k: int| differs_below(b, c, k);
    assert(differs_below(a, b, i));
    assert(differs_below(b, c, k));
    if i <= k {
        assert(differs_below(a, c, i));
    } else {
        assert(differs_below(a, c, k));
    }
}

/// Of two different texts one comes before the other.
proof fn lemma_below_total(a: Text, b: Text, n: int)
    requires
        0 <= n <= a.len(),
        n <= b.len(),
        forall|j: int| 0 <= j < n ==> a[j] == b[j],
    ensures
        text_below(a, b) || text_below(b, a) || a == b,
    decreases a.len() - n,
{
    if n == a.len() && n == b.len() {
        assert(a =~= b);
    } else if n == a.len() {
        assert(differs_below(a, b, n));
    } else if n == b.len() {
        assert(differs_below(b, a, n));
    } else if a[n] < b[n] {
        assert(differs_below(a, b, n));
    } else if b[n] < a[n] {
        assert(differs_below(b, a, n));
    } else {
        lemma_below_total(a, b, n + 1);
    }
}

/// Inserting a text keeps the order and adds exactly that text.
proof fn lemma_insert_text(list: Seq<Text>, t: Text)
    requires
        texts_ascend(list),
    ensures
        texts_ascend(insert_text(list, t)),
        insert_text(list, t).to_multiset() == list.to_multiset().insert(t),
    decreases list.len(),
{
    broadcast use vstd::seq_lib::group_to_multiset_ensures;

    let result = insert_text(list, t);
    if list.len() == 0 || !text_below(t, list.last()) {
        assert forall|i: int, j: int| 0 <= i < j < result.len() implies !text_below(
            #[trigger] result[j],
            #[trigger] result[i],
        ) by {
            if j == list.len() {
                assert(result[i] == list[i]);
                if text_below(t, list[i]) && i < list.len() - 1 {
                    assert(!text_below(list[list.len() - 1], list[i]));
                    lemma_below_total(list[i], list.last(), 0);
                    if text_below(list[i], list.last()) {
                        lemma_below_transitive(t, list[i], list.last());
                    }
                }
            }
        }
    } else {
        let rest = list.drop_last();
        assert forall|i: int, j: int| 0 <= i < j < rest.len() implies !text_below(
            #[trigger] rest[j],
            #[trigger] rest[i],
        ) by {
            assert(rest[i] == list[i] && rest[j] == list[j]);
        }
        lemma_insert_text(rest, t);
        let earlier = insert_text(rest, t);
        assert(list =~= rest.push(list.last()));
        assert(result.to_multiset() =~= list.to_multiset().insert(t));
        assert forall|i: int, j: int| 0 <= i < j < result.len() implies !text_below(
            #[trigger] result[j],
            #[trigger] result[i],
        ) by {
            if j == earlier.len() {
                let x = earlier[i];
                assert(earlier.contains(x));
                assert(earlier.to_multiset().count(x) > 0);
                if x == t {
                    lemma_below_asymmetric(t, list.last());
                } else {
                    assert(rest.to_multiset().count(x) > 0);
                    assert(rest.contains(x));
                    let k = choose|k: int| 0 <= k < rest.len() && rest[k] == x;
                    assert(list[k] == x);
                    assert(!text_below(list[list.len() - 1], list[k]));
                }
            } else {
                assert(result[i] == earlier[i] && result[j] == earlier[j]);
            }
        }
    }
}

/// Sorting a list puts its texts in order, and keeps exactly them.
pub proof fn lemma_texts_sorted(list: Seq<Text>)
    ensures
        texts_ascend(sorted_texts(list)),
        sorted_texts(list).to_multiset() == list.to_multiset(),
    decreases list.len(),
{
    broadcast use vstd::seq_lib::group_to_multiset_ensures;

    if list.len() > 0 {
        lemma_texts_sorted(list.drop_last());
        lemma_insert_text(sorted_texts(list.drop_last()), list.last());
        assert(list =~= list.drop_last().push(list.last()));
    }
}

/// Two lists in order with the same texts are equal.
proof fn lemma_ascending_unique(a: Seq<Text>, b: Seq<Text>)
    requires
        texts_ascend(a),
        texts_ascend(b),
        a.to_multiset() == b.to_multiset(),
    ensures
        a == b,
    decreases a.len(),
{
    broadcast use vstd::seq_lib::group_to_multiset_ensures;

    assert(a.len() == a.to_multiset().len());
    assert(b.len() == b.to_multiset().len());
    if a.len() == 0 {
        assert(a =~= b);
    } else {
        let x = a.last();
        let y = b.last();
        assert(a[a.len() - 1] == x && b[b.len() - 1] == y);
        assert(a.contains(x) && b.contains(y));
        assert(a.to_multiset().count(x) > 0 && b.to_multiset().count(y) > 0);
        assert(b.contains(x) && a.contains(y));
        let i = choose|i: int| 0 <= i < b.len() && b[i] == x;
        let j = choose|j: int| 0 <= j < a.len() && a[j] == y;
        lemma_below_total(x, y, 0);
        if x != y {
            assert(i < b.len() - 1 && j < a.len() - 1);
            assert(!text_below(b[b.len() - 1], b[i]));
            assert(!text_below(a[a.len() - 1], a[j]));
        }
        let a1 = a.drop_last();
        let b1 = b.drop_last();
        assert(a =~= a1.push(x));
        assert(b =~= b1.push(y));
        assert(a1.to_multiset() =~= a.to_multiset().remove(x));
        assert(b1.to_multiset() =~= b.to_multiset().remove(y));
        assert forall|p: int, q: int| 0 <= p < q < a1.len() implies !text_below(
            #[trigger] a1[q],
            #[trigger] a1[p],
        ) by {
            assert(a1[p] == a[p] && a1[q] == a[q]);
        }
        assert forall|p: int, q: int| 0 <= p < q < b1.len() implies !text_below(
            #[trigger] b1[q],
            #[trigger] b1[p],
        ) by {
            assert(b1[p] == b[p] && b1[q] == b[q]);
        }
        lemma_ascending_unique(a1, b1);
    }
}

/// The sorted form of a list does not depend on the order of the list.
pub proof fn lemma_sorting_forgets_order(a: Seq<Text>, b: Seq<Text>)
    requires
        a.to_multiset() == b.to_multiset(),
    ensures
        sorted_texts(a) == sorted_texts(b),
{
    lemma_texts_sorted(a);
    lemma_texts_sorted(b);
    lemma_ascending_unique(sorted_texts(a), sorted_texts(b));
}

} // verus!
