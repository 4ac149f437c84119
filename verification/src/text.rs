//! Operations on text.
//!
//! A text is modelled by its sequence of characters. Texts are ordered by
//! their code points, which is also the order of their UTF-8 encodings.

use vstd::prelude::*;
use vstd::string::StringExecFns;

verus! {

/// `String::push` appends one character to the text.
pub assume_specification[ String::push ](s: &mut String, c: char)
    ensures
        final(s)@ == old(s)@.push(c),
;

/// The contents of a list of texts.
pub open spec fn texts(list: Seq<String>) -> Seq<Seq<char>> {
    list.map_values(|text: String| text@)
}

/// What an optional text holds.
pub open spec fn held(text: Option<String>) -> Option<Seq<char>> {
    match text {
        Some(value) => Some(value@),
        None => None,
    }
}

/// `a` comes strictly before `b` in the order of code points.
pub open spec fn text_less(a: Seq<char>, b: Seq<char>) -> bool
    decreases a.len(),
{
    if b.len() == 0 {
        false
    } else if a.len() == 0 {
        true
    } else if a[0] == b[0] {
        text_less(a.drop_first(), b.drop_first())
    } else {
        a[0] < b[0]
    }
}

/// The character has the Unicode property `White_Space`.
pub open spec fn is_white_space(c: char) -> bool {
    ||| '\u{9}' <= c <= '\u{d}'
    ||| c == '\u{20}'
    ||| c == '\u{85}'
    ||| c == '\u{a0}'
    ||| c == '\u{1680}'
    ||| '\u{2000}' <= c <= '\u{200a}'
    ||| c == '\u{2028}'
    ||| c == '\u{2029}'
    ||| c == '\u{202f}'
    ||| c == '\u{205f}'
    ||| c == '\u{3000}'
}

/// Whether the character is white space.
pub fn white_space(c: char) -> (white: bool)
    ensures
        white == is_white_space(c),
{
    ('\u{9}' <= c && c <= '\u{d}') || c == '\u{20}' || c == '\u{85}' || c == '\u{a0}' || c
        == '\u{1680}' || ('\u{2000}' <= c && c <= '\u{200a}') || c == '\u{2028}' || c == '\u{2029}'
        || c == '\u{202f}' || c == '\u{205f}' || c == '\u{3000}'
}

/// The characters of `text`, in order.
pub fn chars_of(text: &str) -> (chars: Vec<char>)
    ensures
        chars@ == text@,
{
    let mut chars: Vec<char> = Vec::new();
    for c in it: text.chars()
        invariant
            chars@ == it.seq().take(it.index()),
            it.seq() == text@,
    {
        chars.push(c);
        assert(it.seq().take(it.index() + 1) =~= it.seq().take(it.index()).push(c));
    }
    assert(text@.take(text@.len() as int) =~= text@);
    chars
}

/// The text made of the characters from `from` up to `to`.
pub fn text_between(chars: &Vec<char>, from: usize, to: usize) -> (text: String)
    requires
        from <= to <= chars@.len(),
    ensures
        text@ == chars@.subrange(from as int, to as int),
{
    let mut text = String::new();
    let mut i: usize = from;
    while i < to
        invariant
            from <= i <= to <= chars@.len(),
            text@ == chars@.subrange(from as int, i as int),
        decreases to - i,
    {
        text.push(chars[i]);
        assert(chars@.subrange(from as int, i + 1) =~= chars@.subrange(
            from as int,
            i as int,
        ).push(chars@[i as int]));
        i = i + 1;
    }
    text
}

/// Whether two texts hold the same characters.
pub fn same(a: &str, b: &str) -> (equal: bool)
    ensures
        equal == (a@ == b@),
{
    a.to_owned() == b.to_owned()
}

/// Two texts, one after the other.
pub fn concat2(a: &str, b: &str) -> (text: String)
    ensures
        text@ == a@ + b@,
{
    let mut text = a.to_owned();
    text.append(b);
    text
}

/// Three texts, one after the other.
pub fn concat3(a: &str, b: &str, c: &str) -> (text: String)
    ensures
        text@ == a@ + b@ + c@,
{
    let mut text = a.to_owned();
    text.append(b);
    text.append(c);
    text
}

/// Whether an optional text is present and equal to `value`.
pub fn is_some_text(text: &Option<String>, value: &str) -> (equal: bool)
    ensures
        equal == (text matches Some(held) && held@ == value@),
{
    match text {
        Some(held) => same(held.as_str(), value),
        None => false,
    }
}

/// Whether `list` holds `value`.
pub fn contains_text(list: &Vec<String>, value: &str) -> (found: bool)
    ensures
        found == texts(list@).contains(value@),
{
    let mut i: usize = 0;
    while i < list.len()
        invariant
            0 <= i <= list@.len(),
            forall|j: int| 0 <= j < i ==> (#[trigger] list@[j])@ != value@,
        decreases list.len() - i,
    {
        if same(list[i].as_str(), value) {
            assert(texts(list@)[i as int] == value@);
            return true;
        }
        i = i + 1;
    }
    proof {
        if texts(list@).contains(value@) {
            let j = choose|j: int| 0 <= j < texts(list@).len() && texts(list@)[j] == value@;
            assert(list@[j]@ == value@);
        }
    }
    false
}

/// A copy of a list of texts.
pub fn clone_texts(list: &Vec<String>) -> (copy: Vec<String>)
    ensures
        texts(copy@) == texts(list@),
        copy@ == list@,
{
    let mut copy: Vec<String> = Vec::new();
    for i in 0..list.len()
        invariant
            copy@ == list@.take(i as int),
    {
        copy.push(list[i].clone());
        assert(list@.take(i + 1) =~= list@.take(i as int).push(list@[i as int]));
    }
    assert(list@.take(list@.len() as int) =~= list@);
    copy
}

/// Whether `a` comes strictly before `b`.
pub fn precedes(a: &str, b: &str) -> (less: bool)
    ensures
        less == text_less(a@, b@),
{
    let left = chars_of(a);
    let right = chars_of(b);
    let mut i: usize = 0;
    assert(left@.skip(0) =~= left@);
    assert(right@.skip(0) =~= right@);
    while i < left.len() && i < right.len()
        invariant
            i <= left@.len(),
            i <= right@.len(),
            left@ == a@,
            right@ == b@,
            text_less(a@, b@) == text_less(left@.skip(i as int), right@.skip(i as int)),
        decreases left.len() - i,
    {
        assert(left@.skip(i as int).drop_first() =~= left@.skip(i + 1));
        assert(right@.skip(i as int).drop_first() =~= right@.skip(i + 1));
        if left[i] != right[i] {
            return left[i] < right[i];
        }
        i = i + 1;
    }
    i < right.len()
}

/// No text comes before itself, and of two different texts one comes first.
pub proof fn lemma_text_order(a: Seq<char>, b: Seq<char>)
    ensures
        !text_less(a, a),
        text_less(a, b) ==> !text_less(b, a),
        a != b ==> text_less(a, b) || text_less(b, a),
    decreases a.len(),
{
    if a.len() > 0 {
        lemma_text_order(a.drop_first(), a.drop_first());
    }
    if a.len() > 0 && b.len() > 0 && a[0] == b[0] {
        lemma_text_order(a.drop_first(), b.drop_first());
        if a.drop_first() == b.drop_first() {
            assert(a =~= seq![a[0]] + a.drop_first());
            assert(b =~= seq![b[0]] + b.drop_first());
        }
    } else if a.len() == 0 && b.len() == 0 {
        assert(a =~= b);
    }
}

/// The order of texts is transitive.
pub proof fn lemma_text_less_transitive(a: Seq<char>, b: Seq<char>, c: Seq<char>)
    requires
        text_less(a, b),
        text_less(b, c),
    ensures
        text_less(a, c),
    decreases a.len(),
{
    if a.len() > 0 && b.len() > 0 && c.len() > 0 && a[0] == b[0] && b[0] == c[0] {
        lemma_text_less_transitive(a.drop_first(), b.drop_first(), c.drop_first());
    }
}

/// Every text of the list comes before the ones behind it.
pub open spec fn strictly_sorted(list: Seq<Seq<char>>) -> bool {
    forall|i: int, j: int| 0 <= i < j < list.len() ==> text_less(#[trigger] list[i], #[trigger] list[j])
}

/// A list in ascending order without repetitions is determined by its members.
pub proof fn lemma_sorted_list_unique(a: Seq<Seq<char>>, b: Seq<Seq<char>>)
    requires
        strictly_sorted(a),
        strictly_sorted(b),
        forall|text: Seq<char>| a.contains(text) <==> b.contains(text),
    ensures
        a == b,
    decreases a.len(),
{
    if a.len() == 0 {
        if b.len() > 0 {
            assert(b.contains(b[0]));
        }
        assert(a =~= b);
    } else {
        assert(a.contains(a[0]));
        assert(b.len() > 0);
        assert(b.contains(b[0]));
        let i = choose|i: int| 0 <= i < b.len() && b[i] == a[0];
        let j = choose|j: int| 0 <= j < a.len() && a[j] == b[0];
        if a[0] != b[0] {
            assert(text_less(a[0], a[j]));
            assert(text_less(b[0], b[i]));
            lemma_text_order(a[0], b[0]);
        }
        let a1 = a.drop_first();
        let b1 = b.drop_first();
        assert forall|text: Seq<char>| a1.contains(text) <==> b1.contains(text) by {
            lemma_text_order(a[0], a[0]);
            if a1.contains(text) {
                let k = choose|k: int| 0 <= k < a1.len() && a1[k] == text;
                assert(a[k + 1] == text);
                assert(a.contains(text));
                let m = choose|m: int| 0 <= m < b.len() && b[m] == text;
                assert(text_less(a[0], a[k + 1]));
                assert(m > 0);
                assert(b1[m - 1] == text);
            }
            if b1.contains(text) {
                let k = choose|k: int| 0 <= k < b1.len() && b1[k] == text;
                assert(b[k + 1] == text);
                assert(b.contains(text));
                let m = choose|m: int| 0 <= m < a.len() && a[m] == text;
                assert(text_less(b[0], b[k + 1]));
                assert(m > 0);
                assert(a1[m - 1] == text);
            }
        }
        lemma_sorted_list_unique(a1, b1);
        assert(a =~= seq![a[0]] + a1);
        assert(b =~= seq![b[0]] + b1);
    }
}

/// The lists have the same members.
pub open spec fn same_members(a: Seq<Seq<char>>, b: Seq<Seq<char>>) -> bool {
    forall|text: Seq<char>| a.contains(text) <==> b.contains(text)
}

/// The texts of the list in ascending order, each one once.
pub open spec fn in_order(list: Seq<Seq<char>>) -> Seq<Seq<char>> {
    choose|sorted: Seq<Seq<char>>| strictly_sorted(sorted) && same_members(sorted, list)
}

/// There is one way to put a list in order.
pub proof fn lemma_in_order(list: Seq<Seq<char>>, sorted: Seq<Seq<char>>)
    requires
        strictly_sorted(sorted),
        same_members(sorted, list),
    ensures
        in_order(list) == sorted,
{
    let chosen = in_order(list);
    assert(strictly_sorted(chosen) && same_members(chosen, list));
    lemma_sorted_list_unique(chosen, sorted);
}

spec fn put(list: Seq<Seq<char>>, value: Seq<char>) -> Seq<Seq<char>>
    decreases list.len(),
{
    if list.len() == 0 || text_less(value, list[0]) {
        seq![value] + list
    } else if value == list[0] {
        list
    } else {
        seq![list[0]] + put(list.drop_first(), value)
    }
}

proof fn lemma_put(list: Seq<Seq<char>>, value: Seq<char>)
    requires
        strictly_sorted(list),
    ensures
        strictly_sorted(put(list, value)),
        forall|text: Seq<char>| #[trigger]
            put(list, value).contains(text) <==> list.contains(text) || text == value,
    decreases list.len(),
{
    let after = put(list, value);
    if list.len() == 0 || text_less(value, list[0]) {
        assert forall|i: int, j: int| 0 <= i < j < after.len() implies text_less(
            #[trigger] after[i],
            #[trigger] after[j],
        ) by {
            if i > 0 {
                assert(text_less(list[i - 1], list[j - 1]));
            } else if j > 1 {
                assert(text_less(list[0], list[j - 1]));
                lemma_text_less_transitive(value, list[0], list[j - 1]);
            }
        }
        assert forall|text: Seq<char>| #[trigger] after.contains(text) <==> list.contains(text)
            || text == value by {
            if list.contains(text) {
                let k = list.index_of(text);
                assert(after[k + 1] == text);
            }
            if text == value {
                assert(after[0] == text);
            }
            if after.contains(text) && text != value {
                let k = after.index_of(text);
                assert(list[k - 1] == text);
            }
        }
    } else if value == list[0] {
        assert(list.contains(value));
    } else {
        let rest = list.drop_first();
        assert(strictly_sorted(rest));
        lemma_put(rest, value);
        lemma_text_order(value, list[0]);
        let tail = put(rest, value);
        assert forall|i: int, j: int| 0 <= i < j < after.len() implies text_less(
            #[trigger] after[i],
            #[trigger] after[j],
        ) by {
            if i > 0 {
                assert(text_less(tail[i - 1], tail[j - 1]));
            } else {
                assert(tail.contains(tail[j - 1]));
                if tail[j - 1] != value {
                    let k = rest.index_of(tail[j - 1]);
                    assert(text_less(list[0], list[k + 1]));
                }
            }
        }
        assert forall|text: Seq<char>| #[trigger] after.contains(text) <==> list.contains(text)
            || text == value by {
            if list.contains(text) {
                let k = list.index_of(text);
                if k == 0 {
                    assert(after[0] == text);
                } else {
                    assert(rest[k - 1] == text);
                    assert(tail.contains(text));
                }
            }
            if tail.contains(text) {
                let k = tail.index_of(text);
                assert(after[k + 1] == text);
                if rest.contains(text) {
                    let m = rest.index_of(text);
                    assert(list[m + 1] == text);
                }
            }
            if text == value {
                assert(tail.contains(text));
            }
            if after.contains(text) {
                let k = after.index_of(text);
                if k > 0 {
                    assert(tail[k - 1] == text);
                } else {
                    assert(list[0] == text);
                }
            }
        }
    }
}

/// Every list can be put in order.
pub proof fn lemma_order_exists(list: Seq<Seq<char>>)
    ensures
        strictly_sorted(in_order(list)),
        same_members(in_order(list), list),
    decreases list.len(),
{
    if list.len() == 0 {
        lemma_in_order(list, list);
    } else {
        let rest = list.drop_last();
        lemma_order_exists(rest);
        let before = in_order(rest);
        lemma_put(before, list.last());
        let after = put(before, list.last());
        assert forall|text: Seq<char>| after.contains(text) <==> list.contains(text) by {
            assert(after.contains(text) <==> before.contains(text) || text == list.last());
            if rest.contains(text) {
                let k = rest.index_of(text);
                assert(list[k] == text);
            }
            if text == list.last() {
                assert(list[list.len() - 1] == text);
            }
            if list.contains(text) && text != list.last() {
                let k = list.index_of(text);
                assert(rest[k] == text);
            }
        }
        lemma_in_order(list, after);
    }
}

/// Puts `value` into a list in ascending order, unless the list holds it.
pub fn insert_sorted(list: &mut Vec<String>, value: String)
    requires
        strictly_sorted(texts(old(list)@)),
    ensures
        strictly_sorted(texts(final(list)@)),
        forall|text: Seq<char>|
            texts(final(list)@).contains(text) <==> texts(old(list)@).contains(text) || text
                == value@,
        final(list)@.len() <= old(list)@.len() + 1,
{
    let ghost before = texts(list@);
    let mut i: usize = 0;
    let mut end: usize = list.len();
    while i < end
        invariant
            i <= end <= list@.len(),
            list@ == old(list)@,
            before == texts(list@),
            strictly_sorted(before),
            forall|j: int| 0 <= j < i ==> text_less(#[trigger] before[j], value@),
            forall|j: int| end <= j < before.len() ==> !text_less(#[trigger] before[j], value@),
        decreases end - i,
    {
        let middle: usize = i + (end - i) / 2;
        let less = precedes(list[middle].as_str(), value.as_str());
        proof {
            let pivot = before[middle as int];
            assert forall|j: int| 0 <= j < before.len() && less && j <= middle implies text_less(
                #[trigger] before[j],
                value@,
            ) by {
                if j < middle {
                    lemma_text_less_transitive(before[j], pivot, value@);
                }
            }
            assert forall|j: int| middle <= j < before.len() && !less implies !text_less(
                #[trigger] before[j],
                value@,
            ) by {
                if j > middle && text_less(before[j], value@) {
                    lemma_text_less_transitive(pivot, before[j], value@);
                }
            }
        }
        if less {
            i = middle + 1;
        } else {
            end = middle;
        }
    }
    if i < list.len() && same(list[i].as_str(), value.as_str()) {
        assert(before[i as int] == value@);
        return;
    }
    let ghost text = value@;
    list.insert(i, value);
    proof {
        let after = texts(list@);
        assert(after =~= before.insert(i as int, text));
        if i < before.len() {
            lemma_text_order(before[i as int], text);
        }
        assert forall|j: int, k: int| 0 <= j < k < after.len() implies text_less(
            #[trigger] after[j],
            #[trigger] after[k],
        ) by {
            if k == i {
                assert(after[j] == before[j]);
            } else if j == i {
                if k - 1 > i {
                    lemma_text_less_transitive(text, before[i as int], before[k - 1]);
                }
            }
        }
        assert forall|other: Seq<char>|
            after.contains(other) <==> before.contains(other) || other == text by {
            if before.contains(other) {
                let j = choose|j: int| 0 <= j < before.len() && before[j] == other;
                if j < i {
                    assert(after[j] == other);
                } else {
                    assert(after[j + 1] == other);
                }
            }
            if other == text {
                assert(after[i as int] == other);
            }
            if after.contains(other) {
                let j = choose|j: int| 0 <= j < after.len() && after[j] == other;
                if j < i {
                    assert(before[j] == other);
                } else if j > i {
                    assert(before[j - 1] == other);
                }
            }
        }
    }
}

/// The texts of `list` in ascending order, each one once.
pub fn sorted_unique(list: &Vec<String>) -> (sorted: Vec<String>)
    ensures
        strictly_sorted(texts(sorted@)),
        forall|text: Seq<char>| texts(sorted@).contains(text) <==> texts(list@).contains(text),
        texts(sorted@) == in_order(texts(list@)),
        sorted@.len() <= list@.len(),
{
    let mut sorted: Vec<String> = Vec::new();
    for i in 0..list.len()
        invariant
            strictly_sorted(texts(sorted@)),
            forall|text: Seq<char>|
                texts(sorted@).contains(text) <==> texts(list@.take(i as int)).contains(text),
            sorted@.len() <= i,
    {
        let ghost before = texts(list@.take(i as int));
        let ghost after = texts(list@.take(i + 1));
        insert_sorted(&mut sorted, list[i].clone());
        proof {
            assert(after =~= before.push(list@[i as int]@));
            assert forall|text: Seq<char>|
                after.contains(text) <==> before.contains(text) || text == list@[i as int]@ by {
                if before.contains(text) {
                    let j = choose|j: int| 0 <= j < before.len() && before[j] == text;
                    assert(after[j] == text);
                }
                if text == list@[i as int]@ {
                    assert(after[i as int] == text);
                }
            }
        }
    }
    assert(list@.take(list@.len() as int) =~= list@);
    proof {
        lemma_in_order(texts(list@), texts(sorted@));
    }
    sorted
}

/// The text without the slashes that it begins with.
pub open spec fn past_slashes(text: Seq<char>) -> Seq<char>
    decreases text.len(),
{
    if text.len() > 0 && text[0] == '/' {
        past_slashes(text.drop_first())
    } else {
        text
    }
}

/// The text without the slashes that it ends with.
pub open spec fn before_slashes(text: Seq<char>) -> Seq<char>
    decreases text.len(),
{
    if text.len() > 0 && text.last() == '/' {
        before_slashes(text.drop_last())
    } else {
        text
    }
}

/// The text without the slashes at both ends.
pub fn trim_slashes(text: &str) -> (trimmed: String)
    ensures
        trimmed@ == before_slashes(past_slashes(text@)),
{
    let chars = chars_of(text);
    let mut from: usize = 0;
    assert(chars@.skip(0) =~= chars@);
    while from < chars.len() && chars[from] == '/'
        invariant
            from <= chars@.len(),
            past_slashes(text@) == past_slashes(chars@.skip(from as int)),
        decreases chars.len() - from,
    {
        assert(chars@.skip(from as int).drop_first() =~= chars@.skip(from + 1));
        from = from + 1;
    }
    let mut to: usize = chars.len();
    assert(chars@.skip(from as int) =~= chars@.subrange(from as int, to as int));
    while to > from && chars[to - 1] == '/'
        invariant
            from <= to <= chars@.len(),
            before_slashes(past_slashes(text@)) == before_slashes(
                chars@.subrange(from as int, to as int),
            ),
        decreases to,
    {
        assert(chars@.subrange(from as int, to as int).drop_last() =~= chars@.subrange(
            from as int,
            to - 1,
        ));
        to = to - 1;
    }
    text_between(&chars, from, to)
}

/// The decimal digits of `n`.
pub open spec fn decimal_digits(n: nat) -> Seq<char>
    decreases n,
{
    let digit = ('0' as u32 + n % 10) as char;
    if n < 10 {
        seq![digit]
    } else {
        decimal_digits(n / 10).push(digit)
    }
}

/// `n` written in decimal.
pub fn decimal(n: u64) -> (text: String)
    ensures
        text@ == decimal_digits(n as nat),
    decreases n,
{
    let digit = (48u8 + (n % 10) as u8) as char;
    if n < 10 {
        let mut text = String::new();
        text.push(digit);
        assert(text@ =~= seq![digit]);
        text
    } else {
        let mut text = decimal(n / 10);
        text.push(digit);
        text
    }
}

/// The value that decimal digits denote.
pub open spec fn decimal_value(digits: Seq<char>) -> nat
    decreases digits.len(),
{
    if digits.len() == 0 {
        0
    } else {
        (decimal_value(digits.drop_last()) * 10 + (digits.last() as u32 - '0' as u32)) as nat
    }
}

/// Different numbers are written differently.
pub proof fn lemma_decimal_value(n: nat)
    ensures
        decimal_value(decimal_digits(n)) == n,
        decimal_digits(n).len() > 0,
    decreases n,
{
    let digit = ('0' as u32 + n % 10) as char;
    let digits = decimal_digits(n);
    assert(digits.last() == digit);
    if n < 10 {
        assert(digits.drop_last() =~= Seq::<char>::empty());
        assert(decimal_value(Seq::<char>::empty()) == 0);
    } else {
        lemma_decimal_value(n / 10);
        assert(digits.drop_last() =~= decimal_digits(n / 10));
    }
}

/// The lower-case form of an ASCII letter; any other character itself.
pub open spec fn ascii_lower(c: char) -> char {
    if 'A' <= c && c <= 'Z' {
        (c as u32 + 32) as char
    } else {
        c
    }
}

/// The texts agree but for the case of ASCII letters.
pub open spec fn same_ignoring_ascii_case(a: Seq<char>, b: Seq<char>) -> bool {
    a.len() == b.len() && forall|i: int|
        0 <= i < a.len() ==> ascii_lower(#[trigger] a[i]) == ascii_lower(b[i])
}

fn lower(c: char) -> (l: char)
    ensures
        l == ascii_lower(c),
{
    if 'A' <= c && c <= 'Z' {
        (c as u8 + 32) as char
    } else {
        c
    }
}

/// Whether two texts agree but for the case of ASCII letters.
pub fn equal_ignoring_ascii_case(a: &str, b: &str) -> (equal: bool)
    ensures
        equal == same_ignoring_ascii_case(a@, b@),
{
    let left = chars_of(a);
    let right = chars_of(b);
    if left.len() != right.len() {
        return false;
    }
    for i in 0..left.len()
        invariant
            left@.len() == right@.len(),
            left@ == a@,
            right@ == b@,
            forall|j: int| 0 <= j < i ==> ascii_lower(#[trigger] left@[j]) == ascii_lower(right@[j]),
    {
        if lower(left[i]) != lower(right[i]) {
            assert(ascii_lower(left@[i as int]) != ascii_lower(right@[i as int]));
            return false;
        }
    }
    true
}

/// Whether `text` holds the character `c`.
pub fn contains_char(text: &str, c: char) -> (found: bool)
    ensures
        found == text@.contains(c),
{
    let chars = chars_of(text);
    for i in 0..chars.len()
        invariant
            chars@ == text@,
            forall|j: int| 0 <= j < i ==> chars@[j] != c,
    {
        if chars[i] == c {
            return true;
        }
    }
    false
}

/// Whether `text` begins with `prefix`.
pub fn begins_with(text: &str, prefix: &str) -> (begins: bool)
    ensures
        begins == prefix@.is_prefix_of(text@),
{
    let chars = chars_of(text);
    let head = chars_of(prefix);
    if head.len() > chars.len() {
        return false;
    }
    for i in 0..head.len()
        invariant
            chars@ == text@,
            head@ == prefix@,
            head@.len() <= chars@.len(),
            forall|j: int| 0 <= j < i ==> chars@[j] == head@[j],
    {
        if chars[i] != head[i] {
            assert(prefix@.is_prefix_of(text@) ==> text@.subrange(
                0,
                prefix@.len() as int,
            )[i as int] == prefix@[i as int]);
            return false;
        }
    }
    assert(prefix@ =~= text@.subrange(0, prefix@.len() as int));
    true
}

/// The texts with a separator between each two.
pub open spec fn separated(list: Seq<Seq<char>>, separator: Seq<char>) -> Seq<char>
    decreases list.len(),
{
    if list.len() == 0 {
        Seq::empty()
    } else if list.len() == 1 {
        list[0]
    } else {
        separated(list.drop_last(), separator) + separator + list.last()
    }
}

/// The texts with a separator between each two.
pub fn join_texts(list: &Vec<String>, separator: &str) -> (joined: String)
    ensures
        joined@ == separated(texts(list@), separator@),
{
    let mut joined = String::new();
    for i in 0..list.len()
        invariant
            joined@ == separated(texts(list@.take(i as int)), separator@),
    {
        proof {
            let all = texts(list@.take(i + 1));
            assert(all.drop_last() =~= texts(list@.take(i as int)));
            assert(all.last() == list@[i as int]@);
            if i == 0 {
                assert(joined@ =~= Seq::<char>::empty());
                assert(joined@ + list@[0]@ =~= list@[0]@);
            }
        }
        if i > 0 {
            joined.append(separator);
        }
        joined.append(list[i].as_str());
    }
    assert(list@.take(list@.len() as int) =~= list@);
    joined
}

/// The first texts of the pairs.
pub open spec fn keys_of(pairs: Seq<(String, String)>) -> Seq<Seq<char>> {
    Seq::new(pairs.len(), |i: int| pairs[i].0@)
}

/// What the pairs map to one another; a later pair counts.
pub open spec fn map_of(pairs: Seq<(String, String)>) -> Map<Seq<char>, Seq<char>>
    decreases pairs.len(),
{
    if pairs.len() == 0 {
        Map::empty()
    } else {
        map_of(pairs.drop_last()).insert(pairs.last().0@, pairs.last().1@)
    }
}

/// Slashes at both ends are taken off, and nothing else.
pub proof fn slashes_are_taken_off(text: Seq<char>)
    ensures
        ({
            let front = past_slashes(text);
            let n = text.len() - front.len();
            &&& n >= 0
            &&& front == text.skip(n)
            &&& forall|i: int| 0 <= i < n ==> #[trigger] text[i] == '/'
            &&& front.len() > 0 ==> front[0] != '/'
        }),
        ({
            let back = before_slashes(text);
            let n = back.len() as int;
            &&& n <= text.len()
            &&& back == text.take(n)
            &&& forall|i: int| n <= i < text.len() ==> #[trigger] text[i] == '/'
            &&& back.len() > 0 ==> back.last() != '/'
        }),
    decreases text.len(),
{
    assert(text.skip(0) =~= text);
    assert(text.take(text.len() as int) =~= text);
    if text.len() > 0 && text[0] == '/' {
        let rest = text.drop_first();
        slashes_are_taken_off(rest);
        let front = past_slashes(text);
        let n = text.len() - front.len();
        assert(front =~= text.skip(n));
        assert forall|i: int| 0 <= i < n implies #[trigger] text[i] == '/' by {
            if i > 0 {
                assert(rest[i - 1] == text[i]);
            }
        }
    }
    if text.len() > 0 && text.last() == '/' {
        let rest = text.drop_last();
        slashes_are_taken_off(rest);
        let n = before_slashes(text).len() as int;
        assert(before_slashes(text) =~= text.take(n));
        assert forall|i: int| n <= i < text.len() implies #[trigger] text[i] == '/' by {
            if i < rest.len() {
                assert(rest[i] == text[i]);
            }
        }
    }
}

/// The last pair with a key tells its value.
pub proof fn last_pairs_tell(pairs: Seq<(String, String)>, key: Seq<char>, i: int)
    requires
        0 <= i < pairs.len(),
        pairs[i].0@ == key,
        forall|j: int| i < j < pairs.len() ==> (#[trigger] pairs[j]).0@ != key,
    ensures
        map_of(pairs).contains_key(key),
        map_of(pairs)[key] == pairs[i].1@,
    decreases pairs.len(),
{
    if i < pairs.len() - 1 {
        let rest = pairs.drop_last();
        assert(pairs[pairs.len() - 1].0@ != key);
        assert forall|j: int| i < j < rest.len() implies (#[trigger] rest[j]).0@ != key by {
            assert(rest[j] == pairs[j]);
        }
        last_pairs_tell(rest, key, i);
    }
}

/// Joined texts stand in their order, with the separator between each two.
pub proof fn joined_texts_keep_their_order(
    a: Seq<Seq<char>>,
    b: Seq<Seq<char>>,
    separator: Seq<char>,
)
    requires
        a.len() > 0,
        b.len() > 0,
    ensures
        separated(a + b, separator) == separated(a, separator) + separator + separated(
            b,
            separator,
        ),
    decreases b.len(),
{
    let all = a + b;
    assert(all.last() == b.last());
    if b.len() == 1 {
        assert(all.drop_last() =~= a);
        assert(separated(b, separator) == b[0]);
    } else {
        let rest = b.drop_last();
        assert(all.drop_last() =~= a + rest);
        joined_texts_keep_their_order(a, rest, separator);
        assert(separated(all, separator) =~= separated(a, separator) + separator + separated(
            b,
            separator,
        ));
    }
}

} // verus!
