//! Sets of names, kept as ascending lists.

use vstd::prelude::*;
use vstd::utf8;

verus! {

/// Whether `a` and `b` agree up to `k`, and `a` is the smaller one there: it
/// ends, or its next byte is less.
pub open spec fn less_at(a: Seq<u8>, b: Seq<u8>, k: int) -> bool {
    &&& 0 <= k <= a.len()
    &&& k < b.len()
    &&& forall|j: int| 0 <= j < k ==> #[trigger] a[j] == b[j]
    &&& k == a.len() || a[k] < b[k]
}

/// Whether `a` comes before `b` in the order of text: lexicographically, by the
/// bytes of the UTF-8 encoding.
pub open spec fn comes_before(a: Seq<char>, b: Seq<char>) -> bool {
    exists|k: int| less_at(utf8::encode_utf8(a), utf8::encode_utf8(b), k)
}

/// Whether every name in `names` comes before all the names behind it.
pub open spec fn is_ascending(names: Seq<Seq<char>>) -> bool {
    forall|i: int, j: int|
        0 <= i < j < names.len() ==> comes_before(#[trigger] names[i], #[trigger] names[j])
}

/// The members of `set` as an ascending list. There is only one such list.
pub open spec fn ascending(set: Set<Seq<char>>) -> Seq<Seq<char>> {
    choose|names: Seq<Seq<char>>| #[trigger] is_ascending(names) && names.to_set() == set
}

/// No name comes before itself.
pub proof fn lemma_irreflexive(a: Seq<char>)
    ensures
        !comes_before(a, a),
{
}

/// A name that comes before another comes before all that the other does.
pub proof fn lemma_transitive(a: Seq<char>, b: Seq<char>, c: Seq<char>)
    requires
        comes_before(a, b),
        comes_before(b, c),
    ensures
        comes_before(a, c),
{
    let x = utf8::encode_utf8(a);
    let y = utf8::encode_utf8(b);
    let z = utf8::encode_utf8(c);
    let i = choose|k: int| less_at(x, y, k);
    let j = choose|k: int| less_at(y, z, k);
    let k = if i < j {
        i
    } else {
        j
    };
    assert forall|m: int| 0 <= m < k implies #[trigger] x[m] == z[m] by {
        assert(x[m] == y[m]);
        assert(y[m] == z[m]);
    }
    assert(less_at(x, z, k));
}

/// Of two names, the one with the smaller character at the first difference comes
/// first, and a name comes before those that go on behind it.
pub proof fn first_difference_decides(
    common: Seq<char>,
    a: char,
    a_rest: Seq<char>,
    b: char,
    b_rest: Seq<char>,
)
    requires
        a < b,
    ensures
        comes_before(common.push(a) + a_rest, common.push(b) + b_rest),
        !comes_before(common.push(b) + b_rest, common.push(a) + a_rest),
        comes_before(common, common.push(a) + a_rest),
        !comes_before(common.push(a) + a_rest, common),
{
    let x = common.push(a) + a_rest;
    let y = common.push(b) + b_rest;
    let head = utf8::encode_utf8(common);
    assert(x =~= common + (seq![a] + a_rest));
    assert(y =~= common + (seq![b] + b_rest));
    lemma_encode_add(common, seq![a] + a_rest);
    lemma_encode_add(common, seq![b] + b_rest);
    assert((seq![a] + a_rest).drop_first() =~= a_rest);
    assert((seq![b] + b_rest).drop_first() =~= b_rest);
    utf8::char_is_scalar(a);
    utf8::char_is_scalar(b);
    let k = lemma_scalar_order(a as u32, b as u32);
    let p = utf8::encode_utf8(x);
    let q = utf8::encode_utf8(y);
    let s = utf8::encode_scalar(a as u32);
    let t = utf8::encode_scalar(b as u32);
    let n = head.len() as int;
    assert(p =~= head + s + utf8::encode_utf8(a_rest));
    assert(q =~= head + t + utf8::encode_utf8(b_rest));
    assert forall|j: int| 0 <= j < n + k implies #[trigger] p[j] == q[j] by {
        if j >= n {
            assert(s[j - n] == t[j - n]);
        }
    }
    assert(p[n + k] == s[k]);
    assert(q[n + k] == t[k]);
    assert(less_at(p, q, n + k));
    assert(less_at(head, p, n));
    if comes_before(y, x) {
        lemma_transitive(x, y, x);
        lemma_irreflexive(x);
    }
    if comes_before(x, common) {
        lemma_transitive(x, common, x);
        lemma_irreflexive(x);
    }
}

/// The bytes of two texts in a row are those of the first, then of the second.
proof fn lemma_encode_add(a: Seq<char>, b: Seq<char>)
    ensures
        utf8::encode_utf8(a + b) == utf8::encode_utf8(a) + utf8::encode_utf8(b),
    decreases a.len(),
{
    if a.len() == 0 {
        assert(a + b =~= b);
        assert(utf8::encode_utf8(a) + utf8::encode_utf8(b) =~= utf8::encode_utf8(b));
    } else {
        assert((a + b).drop_first() =~= a.drop_first() + b);
        lemma_encode_add(a.drop_first(), b);
        assert(utf8::encode_utf8(a + b) =~= utf8::encode_utf8(a) + utf8::encode_utf8(b));
    }
}

/// The bytes of a smaller character are smaller at the first difference.
proof fn lemma_scalar_order(a: u32, b: u32) -> (k: int)
    requires
        utf8::is_scalar(a),
        utf8::is_scalar(b),
        a < b,
    ensures
        0 <= k < utf8::encode_scalar(a).len(),
        k < utf8::encode_scalar(b).len(),
        forall|j: int|
            0 <= j < k ==> #[trigger] utf8::encode_scalar(a)[j] == utf8::encode_scalar(b)[j],
        utf8::encode_scalar(a)[k] < utf8::encode_scalar(b)[k],
{
    let s = utf8::encode_scalar(a);
    let t = utf8::encode_scalar(b);
    lemma_leading_byte(a);
    lemma_leading_byte(b);
    if utf8::has_width_1_encoding(b) {
        lemma_order_width_1(a, b);
        0
    } else if utf8::has_width_2_encoding(a) && utf8::has_width_2_encoding(b) {
        lemma_order_width_2(a, b);
        if s[0] < t[0] {
            0
        } else {
            1
        }
    } else if utf8::has_width_3_encoding(a) && utf8::has_width_3_encoding(b) {
        lemma_order_width_3(a, b);
        if s[0] < t[0] {
            0
        } else if s[1] < t[1] {
            1
        } else {
            2
        }
    } else if utf8::has_width_4_encoding(a) && utf8::has_width_4_encoding(b) {
        lemma_order_width_4(a, b);
        if s[0] < t[0] {
            0
        } else if s[1] < t[1] {
            1
        } else if s[2] < t[2] {
            2
        } else {
            3
        }
    } else {
        0
    }
}

/// In which range the first byte of a character lies.
proof fn lemma_leading_byte(a: u32)
    ensures
        utf8::has_width_1_encoding(a) ==> utf8::leading_byte_width_1(a) < 0x80,
        utf8::has_width_2_encoding(a) ==> 0xC0 <= utf8::leading_byte_width_2(a) < 0xE0,
        utf8::has_width_3_encoding(a) ==> 0xE0 <= utf8::leading_byte_width_3(a) < 0xF0,
        utf8::has_width_4_encoding(a) ==> 0xF0 <= utf8::leading_byte_width_4(a),
{
    assert(((a & 0x7F) as u8) < 0x80) by (bit_vector);
    assert(0xC0 <= (0xC0 | ((a >> 6) & 0x1F) as u8) && (0xC0 | ((a >> 6) & 0x1F) as u8) < 0xE0)
        by (bit_vector);
    assert(0xE0 <= (0xE0 | ((a >> 12) & 0x0F) as u8) && (0xE0 | ((a >> 12) & 0x0F) as u8) < 0xF0)
        by (bit_vector);
    assert(0xF0 <= (0xF0 | ((a >> 18) & 0x7) as u8)) by (bit_vector);
}

proof fn lemma_order_width_1(a: u32, b: u32)
    by (bit_vector)
    requires
        a < b,
        b <= 0x7F,
    ensures
        utf8::leading_byte_width_1(a) < utf8::leading_byte_width_1(b),
{
}

proof fn lemma_order_width_2(a: u32, b: u32)
    by (bit_vector)
    requires
        0x80 <= a,
        a < b,
        b <= 0x7FF,
    ensures
        utf8::leading_byte_width_2(a) < utf8::leading_byte_width_2(b)
            || utf8::leading_byte_width_2(a) == utf8::leading_byte_width_2(b)
            && utf8::last_continuation_byte(a) < utf8::last_continuation_byte(b),
{
}

proof fn lemma_order_width_3(a: u32, b: u32)
    by (bit_vector)
    requires
        0x800 <= a,
        a < b,
        b <= 0xFFFF,
    ensures
        utf8::leading_byte_width_3(a) < utf8::leading_byte_width_3(b)
            || utf8::leading_byte_width_3(a) == utf8::leading_byte_width_3(b) && (
        utf8::second_last_continuation_byte(a) < utf8::second_last_continuation_byte(b)
            || utf8::second_last_continuation_byte(a) == utf8::second_last_continuation_byte(b)
            && utf8::last_continuation_byte(a) < utf8::last_continuation_byte(b)),
{
}

proof fn lemma_order_width_4(a: u32, b: u32)
    by (bit_vector)
    requires
        0x10000 <= a,
        a < b,
        b <= 0x10FFFF,
    ensures
        utf8::leading_byte_width_4(a) < utf8::leading_byte_width_4(b)
            || utf8::leading_byte_width_4(a) == utf8::leading_byte_width_4(b) && (
        utf8::third_last_continuation_byte(a) < utf8::third_last_continuation_byte(b)
            || utf8::third_last_continuation_byte(a) == utf8::third_last_continuation_byte(b) && (
        utf8::second_last_continuation_byte(a) < utf8::second_last_continuation_byte(b)
            || utf8::second_last_continuation_byte(a) == utf8::second_last_continuation_byte(b)
            && utf8::last_continuation_byte(a) < utf8::last_continuation_byte(b))),
{
}

/// An ascending list is determined by its members.
pub proof fn ascending_list_is_unique(s: Seq<Seq<char>>, t: Seq<Seq<char>>)
    requires
        is_ascending(s),
        is_ascending(t),
        s.to_set() == t.to_set(),
    ensures
        s == t,
    decreases s.len(),
{
    if s.len() == 0 {
        if t.len() > 0 {
            assert(t.to_set().contains(t[0]));
            assert(s.to_set().contains(t[0]));
        }
        assert(s =~= t);
    } else {
        assert(s.to_set().contains(s.last()));
        assert(t.to_set().contains(s.last()));
        let j = choose|j: int| 0 <= j < t.len() && t[j] == s.last();
        assert(t.to_set().contains(t.last()));
        assert(s.to_set().contains(t.last()));
        let i = choose|i: int| 0 <= i < s.len() && s[i] == t.last();
        if j < t.len() - 1 {
            assert(comes_before(t[j], t[t.len() - 1]));
            if i < s.len() - 1 {
                assert(comes_before(s[i], s[s.len() - 1]));
                lemma_transitive(t[j], t[t.len() - 1], t[j]);
            }
            lemma_irreflexive(t[j]);
        }
        assert(s.last() == t.last());
        lemma_members_without_last(s);
        lemma_members_without_last(t);
        ascending_list_is_unique(s.drop_last(), t.drop_last());
        assert(s =~= s.drop_last().push(s.last()));
        assert(t =~= t.drop_last().push(t.last()));
    }
}

proof fn lemma_members_without_last(s: Seq<Seq<char>>)
    requires
        is_ascending(s),
        s.len() > 0,
    ensures
        s.drop_last().to_set() == s.to_set().remove(s.last()),
{
    assert forall|x: Seq<char>| s.drop_last().to_set().contains(x) implies #[trigger] s.to_set().remove(
        s.last(),
    ).contains(x) by {
        let i = choose|i: int| 0 <= i < s.drop_last().len() && s.drop_last()[i] == x;
        assert(s[i] == x);
        assert(comes_before(s[i], s[s.len() - 1]));
        lemma_irreflexive(x);
    }
    assert forall|x: Seq<char>| #[trigger] s.to_set().remove(s.last()).contains(x) implies s.drop_last().to_set().contains(
        x,
    ) by {
        let i = choose|i: int| 0 <= i < s.len() && s[i] == x;
        assert(s.drop_last()[i] == x);
    }
    assert(s.drop_last().to_set() =~= s.to_set().remove(s.last()));
}

/// Of two names that differ, one comes before the other.
pub proof fn lemma_total(a: Seq<char>, b: Seq<char>)
    ensures
        a == b || comes_before(a, b) || comes_before(b, a),
{
    lemma_total_from(a, b, 0);
}

proof fn lemma_total_from(a: Seq<char>, b: Seq<char>, k: int)
    requires
        0 <= k <= utf8::encode_utf8(a).len(),
        k <= utf8::encode_utf8(b).len(),
        forall|j: int| 0 <= j < k ==> #[trigger] utf8::encode_utf8(a)[j] == utf8::encode_utf8(b)[j],
    ensures
        a == b || comes_before(a, b) || comes_before(b, a),
    decreases utf8::encode_utf8(a).len() - k,
{
    let x = utf8::encode_utf8(a);
    let y = utf8::encode_utf8(b);
    if k == x.len() && k == y.len() {
        assert(x =~= y);
        utf8::encode_utf8_decode_utf8(a);
        utf8::encode_utf8_decode_utf8(b);
    } else if k == x.len() || (k < y.len() && x[k] < y[k]) {
        assert(less_at(x, y, k));
    } else if k == y.len() || y[k] < x[k] {
        assert(less_at(y, x, k));
    } else {
        lemma_total_from(a, b, k + 1);
    }
}

/// A name that comes after all of `names` can stand at the end.
proof fn lemma_ascending_push(names: Seq<Seq<char>>, name: Seq<char>)
    requires
        is_ascending(names),
        names.len() > 0 ==> comes_before(names.last(), name),
    ensures
        is_ascending(names.push(name)),
{
    assert forall|i: int, j: int| 0 <= i < j < names.push(name).len() implies comes_before(
        #[trigger] names.push(name)[i],
        #[trigger] names.push(name)[j],
    ) by {
        if j == names.len() && i < names.len() - 1 {
            assert(comes_before(names[i], names[names.len() - 1]));
            lemma_transitive(names[i], names.last(), name);
        }
    }
}

/// The members of an ascending list and one more name have an ascending list.
proof fn lemma_insertion_exists(names: Seq<Seq<char>>, name: Seq<char>) -> (longer: Seq<Seq<char>>)
    requires
        is_ascending(names),
    ensures
        is_ascending(longer),
        longer.to_set() == names.to_set().insert(name),
        longer.len() > 0,
        longer.last() == name || names.contains(longer.last()),
    decreases names.len(),
{
    if names.len() == 0 {
        let longer = seq![name];
        assert(longer[0] == name);
        assert(longer.to_set() =~= names.to_set().insert(name));
        longer
    } else {
        let last = names.last();
        let init = names.drop_last();
        assert(names[names.len() - 1] == last);
        lemma_total(last, name);
        if last == name {
            assert(names.to_set() =~= names.to_set().insert(name));
            names
        } else if comes_before(last, name) {
            lemma_ascending_push(names, name);
            names.lemma_push_to_set_commute(name);
            names.push(name)
        } else {
            assert(is_ascending(init));
            let shorter = lemma_insertion_exists(init, name);
            if shorter.last() != name {
                let k = choose|k: int| 0 <= k < init.len() && init[k] == shorter.last();
                assert(comes_before(names[k], names[names.len() - 1]));
            }
            lemma_ascending_push(shorter, last);
            shorter.lemma_push_to_set_commute(last);
            assert(init.push(last) =~= names);
            init.lemma_push_to_set_commute(last);
            assert(shorter.push(last).to_set() =~= names.to_set().insert(name));
            shorter.push(last)
        }
    }
}

/// The list of the members of a finite set is ascending, and holds them all.
pub proof fn ascending_list_exists(set: Set<Seq<char>>)
    requires
        set.finite(),
    ensures
        is_ascending(ascending(set)),
        ascending(set).to_set() == set,
{
    let names = lemma_list_of_set(set);
    assert(is_ascending(names) && names.to_set() == set);
}

proof fn lemma_list_of_set(set: Set<Seq<char>>) -> (names: Seq<Seq<char>>)
    requires
        set.finite(),
    ensures
        is_ascending(names),
        names.to_set() == set,
    decreases set.len(),
{
    if set.len() == 0 {
        let names: Seq<Seq<char>> = Seq::empty();
        assert(names.to_set() =~= set);
        names
    } else {
        let name = set.choose();
        let rest = lemma_list_of_set(set.remove(name));
        assert(set.remove(name).insert(name) =~= set);
        lemma_insertion_exists(rest, name)
    }
}

/// No name occurs twice in an ascending list.
pub proof fn lemma_ascending_distinct(names: Seq<Seq<char>>)
    requires
        is_ascending(names),
    ensures
        names.no_duplicates(),
{
    assert forall|i: int, j: int|
        0 <= i < names.len() && 0 <= j < names.len() && i != j implies names[i] != names[j] by {
        if i < j {
            assert(comes_before(names[i], names[j]));
        } else {
            assert(comes_before(names[j], names[i]));
        }
        lemma_irreflexive(names[i]);
    }
}

/// The ascending list of the members of an ascending list is that list.
pub proof fn lemma_ascending(names: Seq<Seq<char>>)
    requires
        is_ascending(names),
    ensures
        ascending(names.to_set()) == names,
{
    ascending_list_is_unique(ascending(names.to_set()), names);
}

// ---------------------------------------------------------------------------
// Gathering
// ---------------------------------------------------------------------------

/// The union of the sets that `f` gives for `items`.
pub open spec fn gathered<T>(items: Seq<T>, f: spec_fn(T) -> Set<Seq<char>>) -> Set<Seq<char>> {
    Set::new(
        |s: Seq<char>| exists|k: int| 0 <= k < items.len() && f(#[trigger] items[k]).contains(s),
    )
}

/// One more item adds the set that `f` gives for it.
pub proof fn lemma_gathered_take<T>(items: Seq<T>, f: spec_fn(T) -> Set<Seq<char>>, i: int)
    requires
        0 <= i < items.len(),
    ensures
        gathered(items.take(i + 1), f) == gathered(items.take(i), f).union(f(items[i])),
{
    assert forall|s: Seq<char>| #[trigger] gathered(items.take(i + 1), f).contains(s) == gathered(
        items.take(i),
        f,
    ).union(f(items[i])).contains(s) by {
        if gathered(items.take(i + 1), f).contains(s) {
            let k = choose|k: int|
                0 <= k < items.take(i + 1).len() && f(#[trigger] items.take(i + 1)[k]).contains(s);
            if k < i {
                assert(items.take(i)[k] == items.take(i + 1)[k]);
            }
        }
        if gathered(items.take(i), f).contains(s) {
            let k = choose|k: int|
                0 <= k < items.take(i).len() && f(#[trigger] items.take(i)[k]).contains(s);
            assert(items.take(i + 1)[k] == items.take(i)[k]);
        }
        if f(items[i]).contains(s) {
            assert(items.take(i + 1)[i] == items[i]);
        }
    }
    assert(gathered(items.take(i + 1), f) =~= gathered(items.take(i), f).union(f(items[i])));
}

/// Finitely many names are gathered where each item gives finitely many.
pub proof fn lemma_gathered_finite<T>(items: Seq<T>, f: spec_fn(T) -> Set<Seq<char>>)
    requires
        forall|k: int| 0 <= k < items.len() ==> f(#[trigger] items[k]).finite(),
    ensures
        gathered(items, f).finite(),
    decreases items.len(),
{
    if items.len() == 0 {
        assert(items =~= Seq::empty());
        lemma_gathered_empty(f);
    } else {
        let n = items.len() - 1;
        assert forall|k: int| 0 <= k < n implies f(#[trigger] items.take(n)[k]).finite() by {
            assert(items.take(n)[k] == items[k]);
        }
        lemma_gathered_finite(items.take(n), f);
        lemma_gathered_take(items, f, n);
        assert(items.take(n + 1) =~= items);
        assert(f(items[n]).finite());
    }
}

/// No item gives nothing.
pub proof fn lemma_gathered_empty<T>(f: spec_fn(T) -> Set<Seq<char>>)
    ensures
        gathered(Seq::<T>::empty(), f) == Set::<Seq<char>>::empty(),
{
    assert(gathered(Seq::<T>::empty(), f) =~= Set::<Seq<char>>::empty());
}

/// The union of the sets `parts`.
pub open spec fn united(parts: Seq<Set<Seq<char>>>) -> Set<Seq<char>> {
    Set::new(
        |s: Seq<char>| exists|k: int| 0 <= k < parts.len() && (#[trigger] parts[k]).contains(s),
    )
}

/// One more set adds its members.
pub proof fn lemma_united_push(parts: Seq<Set<Seq<char>>>, part: Set<Seq<char>>)
    ensures
        united(parts.push(part)) == united(parts).union(part),
{
    let all = parts.push(part);
    assert forall|s: Seq<char>| #[trigger] united(all).contains(s) == united(parts).union(
        part,
    ).contains(s) by {
        if united(all).contains(s) {
            let k = choose|k: int| 0 <= k < all.len() && (#[trigger] all[k]).contains(s);
            if k < parts.len() {
                assert(parts[k].contains(s));
            }
        }
        if united(parts).contains(s) {
            let k = choose|k: int| 0 <= k < parts.len() && (#[trigger] parts[k]).contains(s);
            assert(all[k].contains(s));
        }
        if part.contains(s) {
            assert(all[parts.len() as int].contains(s));
        }
    }
    assert(united(all) =~= united(parts).union(part));
}

/// The union of no sets is empty.
pub proof fn lemma_united_empty()
    ensures
        united(Seq::empty()) == Set::<Seq<char>>::empty(),
{
    assert(united(Seq::empty()) =~= Set::<Seq<char>>::empty());
}

/// The union of what `f` gives for each item is what is gathered from all.
pub proof fn lemma_united_map<T>(items: Seq<T>, f: spec_fn(T) -> Set<Seq<char>>)
    ensures
        united(items.map_values(f)) == gathered(items, f),
{
    let parts = items.map_values(f);
    assert forall|s: Seq<char>| #[trigger] united(parts).contains(s) == gathered(
        items,
        f,
    ).contains(s) by {
        if united(parts).contains(s) {
            let k = choose|k: int| 0 <= k < parts.len() && (#[trigger] parts[k]).contains(s);
            assert(f(items[k]).contains(s));
        }
        if gathered(items, f).contains(s) {
            let k = choose|k: int| 0 <= k < items.len() && f(#[trigger] items[k]).contains(s);
            assert(parts[k].contains(s));
        }
    }
    assert(united(parts) =~= gathered(items, f));
}

// ---------------------------------------------------------------------------
// Inserting
// ---------------------------------------------------------------------------

/// How two names compare.
pub enum NameOrder {
    Before,
    Same,
    After,
}

/// How `a` and `b` compare in the order of text.
pub fn compare_names(a: &str, b: &str) -> (order: NameOrder)
    ensures
        match order {
            NameOrder::Before => comes_before(a@, b@),
            NameOrder::Same => a@ == b@,
            NameOrder::After => comes_before(b@, a@),
        },
{
    let x = a.as_bytes();
    let y = b.as_bytes();
    let mut i: usize = 0;
    while i < x.len() && i < y.len() && x[i] == y[i]
        invariant
            i <= x.len(),
            i <= y.len(),
            forall|j: int| 0 <= j < i ==> #[trigger] x@[j] == y@[j],
        decreases x.len() - i,
    {
        i = i + 1;
    }
    if i < y.len() && (i == x.len() || x[i] < y[i]) {
        assert(less_at(x@, y@, i as int));
        NameOrder::Before
    } else if i < x.len() {
        assert(less_at(y@, x@, i as int));
        NameOrder::After
    } else {
        proof {
            assert(x@ =~= y@);
            utf8::encode_utf8_decode_utf8(a@);
            utf8::encode_utf8_decode_utf8(b@);
        }
        NameOrder::Same
    }
}

/// Adds `name` to the set of names that the ascending list `names` holds.
pub fn insert_name(names: &mut Vec<String>, name: &str)
    requires
        is_ascending(old(names).deep_view()),
    ensures
        is_ascending(final(names).deep_view()),
        final(names).deep_view().to_set() == old(names).deep_view().to_set().insert(name@),
{
    let ghost before = names.deep_view();
    let mut low: usize = 0;
    let mut high: usize = names.len();
    while low < high
        invariant
            before == names.deep_view(),
            is_ascending(before),
            low <= high <= names.len(),
            forall|j: int| 0 <= j < low ==> comes_before(#[trigger] before[j], name@),
            forall|j: int| high <= j < names.len() ==> comes_before(name@, #[trigger] before[j]),
        decreases high - low,
    {
        let mid: usize = low + (high - low) / 2;
        assert(before[mid as int] == names@[mid as int]@);
        match compare_names(names[mid].as_str(), name) {
            NameOrder::Before => {
                assert forall|j: int| 0 <= j <= mid implies comes_before(
                    #[trigger] before[j],
                    name@,
                ) by {
                    if j < mid {
                        lemma_transitive(before[j], before[mid as int], name@);
                    }
                }
                low = mid + 1;
            },
            NameOrder::Same => {
                assert(before.contains(name@));
                assert(before.to_set() =~= before.to_set().insert(name@));
                return ;
            },
            NameOrder::After => {
                assert forall|j: int| mid <= j < names.len() implies comes_before(
                    name@,
                    #[trigger] before[j],
                ) by {
                    if j > mid {
                        lemma_transitive(name@, before[mid as int], before[j]);
                    }
                }
                high = mid;
            },
        }
    }
    names.insert(low, name.to_owned());
    let ghost after = names.deep_view();
    assert(after =~= before.insert(low as int, name@));
    proof {
        before.insert_ensures(low as int, name@);
        assert forall|i: int, j: int| 0 <= i < j < after.len() implies comes_before(
            #[trigger] after[i],
            #[trigger] after[j],
        ) by {
            let p = if i < low {
                i
            } else {
                i - 1
            };
            let q = if j < low {
                j
            } else {
                j - 1
            };
            if i != low && j != low {
                assert(comes_before(before[p], before[q]));
            }
        }
        assert forall|x: Seq<char>| after.contains(x) == (before.contains(x) || x == name@) by {
            if after.contains(x) {
                let i = choose|i: int| 0 <= i < after.len() && after[i] == x;
                if i < low {
                    assert(before[i] == x);
                } else if i > low {
                    assert(before[i - 1] == x);
                }
            }
            if before.contains(x) {
                let i = choose|i: int| 0 <= i < before.len() && before[i] == x;
                if i < low {
                    assert(after[i] == x);
                } else {
                    assert(after[i + 1] == x);
                }
            }
            assert(after[low as int] == name@);
        }
        assert(after.to_set() =~= before.to_set().insert(name@));
    }
}

} // verus!
