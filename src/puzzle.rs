use vstd::prelude::*;
use crate::value::{Record, VariableType};
use crate::store::{Variables, has_name, index_of, scalars};
use crate::constraint::Constraint;
use crate::relation::Relation;
use crate::filter::filter_domain;
use crate::solver::solution;

verus! {

/// Relies on String::push: the character is appended at the end.
#[verifier::external_body]
fn push_char(s: &mut String, c: char)
    ensures
        final(s)@ == old(s)@.push(c),
{
    s.push(c)
}

/// Relies on char::to_ascii_uppercase: `a`..`z` become `A`..`Z`, any other
/// character is returned unchanged.
#[verifier::external_body]
fn ascii_upper(c: char) -> (r: char)
    ensures
        'a' <= c <= 'z' ==> r as u32 == c as u32 - 32,
        !('a' <= c <= 'z') ==> r == c,
{
    c.to_ascii_uppercase()
}

/// The code point of `c`.
pub open spec fn code(c: char) -> u32 {
    c as u32
}

/// The ASCII upper-case form of `c`.
pub open spec fn upper(c: char) -> char {
    if 'a' <= c <= 'z' {
        choose|r: char| #[trigger] code(r) == code(c) - 32
    } else {
        c
    }
}

/// Upper-cases an ASCII letter, leaving any other character as it is.
fn to_upper(c: char) -> (r: char)
    ensures
        r == upper(c),
{
    let r = ascii_upper(c);
    proof {
        if 'a' <= c <= 'z' {
            assert(code(r) == code(c) - 32);
            let u = choose|u: char| #[trigger] code(u) == code(c) - 32;
            assert(code(u) == code(r));
        }
    }
    r
}

/// The digit paired with `c` in `m` (the first pairing), if any.
pub open spec fn digit_of(m: Seq<(char, i32)>, c: char) -> Option<i32>
    decreases m.len(),
{
    if m.len() == 0 {
        None
    } else if m[0].0 == c {
        Some(m[0].1)
    } else {
        digit_of(m.drop_first(), c)
    }
}

/// The digit of `word` in column `i`, counted from the right; 0 left of the word.
pub open spec fn digit_at(word: Seq<char>, m: Seq<(char, i32)>, i: int) -> int {
    if 0 <= i < word.len() {
        match digit_of(m, upper(word[word.len() - 1 - i])) {
            Some(d) => d as int,
            None => 0,
        }
    } else {
        0
    }
}

/// The carry into column `i` (from the right) of `left + right`.
pub open spec fn carry_into(left: Seq<char>, right: Seq<char>, m: Seq<(char, i32)>, i: int) -> int
    decreases i,
{
    if i <= 0 {
        0
    } else {
        (digit_at(left, m, i - 1) + digit_at(right, m, i - 1) + carry_into(left, right, m, i - 1)) / 10
    }
}

/// The number of columns of the sum.
pub open spec fn sum_width(left: Seq<char>, right: Seq<char>, result: Seq<char>) -> int {
    let a = if left.len() > right.len() { left.len() } else { right.len() };
    if a > result.len() { a as int } else { result.len() as int }
}

/// `m` solves `left + right = result`: its digits lie in 0..=9 and differ
/// pairwise, every letter of the words (upper-cased) has a digit, the first
/// letter of each word is not 0, and adding column by column from the right,
/// with carries, gives `result` with no carry left over.
pub open spec fn solves(left: Seq<char>, right: Seq<char>, result: Seq<char>, m: Seq<(char, i32)>) -> bool {
    &&& forall|j: int| 0 <= j < m.len() ==> 0 <= (#[trigger] m[j]).1 <= 9
    &&& forall|j: int, k: int| 0 <= j < m.len() && 0 <= k < m.len() && j != k ==> (#[trigger] m[j]).1 != (#[trigger] m[k]).1
    &&& forall|j: int| 0 <= j < left.len() ==> digit_of(m, upper(#[trigger] left[j])) is Some
    &&& forall|j: int| 0 <= j < right.len() ==> digit_of(m, upper(#[trigger] right[j])) is Some
    &&& forall|j: int| 0 <= j < result.len() ==> digit_of(m, upper(#[trigger] result[j])) is Some
    &&& left.len() > 0 ==> digit_of(m, upper(left[0])) != Some(0i32)
    &&& right.len() > 0 ==> digit_of(m, upper(right[0])) != Some(0i32)
    &&& result.len() > 0 ==> digit_of(m, upper(result[0])) != Some(0i32)
    &&& forall|i: int| 0 <= i < sum_width(left, right, result) ==>
        (digit_at(left, m, i) + digit_at(right, m, i) + #[trigger] carry_into(left, right, m, i)) % 10 == digit_at(result, m, i)
    &&& carry_into(left, right, m, sum_width(left, right, result)) == 0
}

/// Ten to the power `n`.
pub open spec fn pow10(n: nat) -> int
    decreases n,
{
    if n == 0 {
        1
    } else {
        10 * pow10((n - 1) as nat)
    }
}

/// The number spelled by the last `k` letters of `word` under `m`.
pub open spec fn low_value(word: Seq<char>, m: Seq<(char, i32)>, k: nat) -> int
    decreases k,
{
    if k == 0 {
        0
    } else {
        low_value(word, m, (k - 1) as nat) + digit_at(word, m, k - 1) * pow10((k - 1) as nat)
    }
}

/// The number `word` spells under `m`.
pub open spec fn word_value(word: Seq<char>, m: Seq<(char, i32)>) -> int {
    low_value(word, m, word.len())
}

proof fn lemma_low_value_past_end(word: Seq<char>, m: Seq<(char, i32)>, k: nat)
    requires
        k >= word.len(),
    ensures
        low_value(word, m, k) == word_value(word, m),
    decreases k,
{
    if k > word.len() {
        lemma_low_value_past_end(word, m, (k - 1) as nat);
    }
}

proof fn lemma_columns_add_up(left: Seq<char>, right: Seq<char>, result: Seq<char>, m: Seq<(char, i32)>, k: nat)
    requires
        solves(left, right, result, m),
        k <= sum_width(left, right, result),
    ensures
        low_value(left, m, k) + low_value(right, m, k) == low_value(result, m, k) + carry_into(left, right, m, k as int) * pow10(k),
    decreases k,
{
    if k > 0 {
        let j = (k - 1) as nat;
        lemma_columns_add_up(left, right, result, m, j);
        lemma_digit_range(left, m, j as int);
        lemma_digit_range(right, m, j as int);
        let t = digit_at(left, m, j as int) + digit_at(right, m, j as int) + carry_into(left, right, m, j as int);
        assert(t % 10 == digit_at(result, m, j as int));
        assert(carry_into(left, right, m, k as int) == t / 10);
        assert(t == digit_at(result, m, j as int) + 10 * carry_into(left, right, m, k as int));
        let p = pow10(j);
        assert(pow10(k) == 10 * p);
        let dl = digit_at(left, m, j as int);
        let dr = digit_at(right, m, j as int);
        let ds = digit_at(result, m, j as int);
        let c0 = carry_into(left, right, m, j as int);
        let c1 = carry_into(left, right, m, k as int);
        assert(dl * p + dr * p + c0 * p == ds * p + c1 * (10 * p)) by (nonlinear_arith)
            requires
                dl + dr + c0 == ds + 10 * c1,
        ;
        assert(low_value(left, m, k) == low_value(left, m, j) + dl * p);
        assert(low_value(right, m, k) == low_value(right, m, j) + dr * p);
        assert(low_value(result, m, k) == low_value(result, m, j) + ds * p);
    }
}

/// A mapping that solves a puzzle makes it a true sum: the number spelled by
/// `left` plus the number spelled by `right` is the number spelled by `result`.
pub proof fn lemma_solution_adds_up(left: Seq<char>, right: Seq<char>, result: Seq<char>, m: Seq<(char, i32)>)
    requires
        solves(left, right, result, m),
    ensures
        word_value(left, m) + word_value(right, m) == word_value(result, m),
{
    let w = sum_width(left, right, result) as nat;
    lemma_columns_add_up(left, right, result, m, w);
    lemma_low_value_past_end(left, m, w);
    lemma_low_value_past_end(right, m, w);
    lemma_low_value_past_end(result, m, w);
}

/// The digit paired with `c` in `m`, if any.
fn find_digit(m: &Vec<(char, i32)>, c: char) -> (r: Option<i32>)
    ensures
        r == digit_of(m@, c),
{
    let mut i: usize = 0;
    assert(m@.subrange(0, m@.len() as int) =~= m@);
    while i < m.len()
        invariant
            i <= m@.len(),
            digit_of(m@, c) == digit_of(m@.subrange(i as int, m@.len() as int), c),
        decreases m@.len() - i,
    {
        let ghost rest = m@.subrange(i as int, m@.len() as int);
        assert(rest.drop_first() =~= m@.subrange(i as int + 1, m@.len() as int));
        assert(rest[0] == m@[i as int]);
        if m[i].0 == c {
            return Some(m[i].1);
        }
        i = i + 1;
    }
    None
}

/// Every letter of `word` has a digit in `m`, and the first one is not 0.
fn word_covered(word: &Vec<char>, m: &Vec<(char, i32)>) -> (r: bool)
    ensures
        r == ((forall|j: int| 0 <= j < word@.len() ==> digit_of(m@, upper(#[trigger] word@[j])) is Some)
            && (word@.len() > 0 ==> digit_of(m@, upper(word@[0])) != Some(0i32))),
{
    let mut j: usize = 0;
    while j < word.len()
        invariant
            j <= word@.len(),
            forall|k: int| 0 <= k < j ==> digit_of(m@, upper(#[trigger] word@[k])) is Some,
        decreases word@.len() - j,
    {
        if find_digit(m, to_upper(word[j])).is_none() {
            return false;
        }
        j = j + 1;
    }
    if word.len() > 0 {
        match find_digit(m, to_upper(word[0])) {
            Some(d) => d != 0,
            None => false,
        }
    } else {
        true
    }
}

/// The digit of `word` in column `i` from the right, 0 left of the word or
/// for a letter without a digit.
fn column_digit(word: &Vec<char>, m: &Vec<(char, i32)>, i: usize) -> (r: i64)
    ensures
        r == digit_at(word@, m@, i as int),
{
    if i < word.len() {
        match find_digit(m, to_upper(word[word.len() - 1 - i])) {
            Some(d) => d as i64,
            None => 0,
        }
    } else {
        0
    }
}

/// Whether `m` solves `left + right = result`.
pub fn check_solution(left: &Vec<char>, right: &Vec<char>, result: &Vec<char>, m: &Vec<(char, i32)>) -> (r: bool)
    ensures
        r == solves(left@, right@, result@, m@),
{
    let mut j: usize = 0;
    while j < m.len()
        invariant
            j <= m@.len(),
            forall|a: int| 0 <= a < j ==> 0 <= (#[trigger] m@[a]).1 <= 9,
            forall|a: int, b: int| 0 <= a < j && 0 <= b < m@.len() && a != b ==> (#[trigger] m@[a]).1 != (#[trigger] m@[b]).1,
        decreases m@.len() - j,
    {
        if m[j].1 < 0 || m[j].1 > 9 {
            return false;
        }
        let mut k: usize = 0;
        while k < m.len()
            invariant
                j < m@.len(),
                k <= m@.len(),
                forall|b: int| 0 <= b < k && b != j ==> m@[j as int].1 != (#[trigger] m@[b]).1,
            decreases m@.len() - k,
        {
            if k != j && m[k].1 == m[j].1 {
                assert(m@[j as int].1 == m@[k as int].1);
                return false;
            }
            k = k + 1;
        }
        j = j + 1;
    }
    if !word_covered(left, m) || !word_covered(right, m) || !word_covered(result, m) {
        return false;
    }
    let mut width = left.len();
    if right.len() > width {
        width = right.len();
    }
    if result.len() > width {
        width = result.len();
    }
    let ghost w = sum_width(left@, right@, result@);
    assert(width == w);
    let mut carry: i64 = 0;
    let mut i: usize = 0;
    while i < width
        invariant
            i <= width,
            width == w,
            w == sum_width(left@, right@, result@),
            forall|a: int| 0 <= a < m@.len() ==> 0 <= (#[trigger] m@[a]).1 <= 9,
            carry == carry_into(left@, right@, m@, i as int),
            0 <= carry <= 1,
            forall|c: int| 0 <= c < i ==> (digit_at(left@, m@, c) + digit_at(right@, m@, c) + #[trigger] carry_into(left@, right@, m@, c)) % 10
                == digit_at(result@, m@, c),
        decreases width - i,
    {
        let a = column_digit(left, m, i);
        let b = column_digit(right, m, i);
        let c = column_digit(result, m, i);
        proof {
            lemma_digit_range(left@, m@, i as int);
            lemma_digit_range(right@, m@, i as int);
        }
        let total = a + b + carry;
        if total % 10 != c {
            assert(!((digit_at(left@, m@, i as int) + digit_at(right@, m@, i as int) + carry_into(left@, right@, m@, i as int)) % 10
                == digit_at(result@, m@, i as int)));
            assert(0 <= i < sum_width(left@, right@, result@));
            assert(!solves(left@, right@, result@, m@));
            return false;
        }
        carry = total / 10;
        i = i + 1;
    }
    carry == 0
}

proof fn lemma_digit_of_range(m: Seq<(char, i32)>, c: char)
    requires
        forall|a: int| 0 <= a < m.len() ==> 0 <= (#[trigger] m[a]).1 <= 9,
    ensures
        digit_of(m, c) matches Some(d) ==> 0 <= d <= 9,
    decreases m.len(),
{
    if m.len() > 0 && m[0].0 != c {
        assert forall|a: int| 0 <= a < m.drop_first().len() implies 0 <= (#[trigger] m.drop_first()[a]).1 <= 9 by {
            assert(m.drop_first()[a] == m[a + 1]);
        }
        lemma_digit_of_range(m.drop_first(), c);
    }
}

proof fn lemma_digit_range(word: Seq<char>, m: Seq<(char, i32)>, i: int)
    requires
        forall|a: int| 0 <= a < m.len() ==> 0 <= (#[trigger] m[a]).1 <= 9,
    ensures
        0 <= digit_at(word, m, i) <= 9,
{
    if 0 <= i < word.len() {
        lemma_digit_of_range(m, upper(word[word.len() - 1 - i]));
    }
}

/// The decimal digit `d` as a character.
pub open spec fn digit_char(d: nat) -> char {
    if d == 0 { '0' } else if d == 1 { '1' } else if d == 2 { '2' } else if d == 3 { '3' } else if d == 4 { '4' }
    else if d == 5 { '5' } else if d == 6 { '6' } else if d == 7 { '7' } else if d == 8 { '8' } else { '9' }
}

/// The decimal numeral of `n`.
pub open spec fn decimal(n: nat) -> Seq<char>
    decreases n,
{
    if n < 10 {
        seq![digit_char(n)]
    } else {
        decimal(n / 10).push(digit_char(n % 10))
    }
}

fn push_decimal(s: &mut String, n: usize)
    ensures
        final(s)@ == old(s)@ + decimal(n as nat),
    decreases n,
{
    if n >= 10 {
        push_decimal(s, n / 10);
    }
    let d = n % 10;
    let c = if d == 0 { '0' } else if d == 1 { '1' } else if d == 2 { '2' } else if d == 3 { '3' } else if d == 4 { '4' }
        else if d == 5 { '5' } else if d == 6 { '6' } else if d == 7 { '7' } else if d == 8 { '8' } else { '9' };
    push_char(s, c);
    assert(s@ =~= old(s)@ + decimal(n as nat));
}

/// The one-character name `c`.
fn char_name(c: char) -> (r: String)
    ensures
        r@ == seq![c],
{
    let mut s = String::new();
    push_char(&mut s, c);
    assert(s@ =~= seq![c]);
    s
}

/// `prefix` followed by the decimal numeral of `i`.
fn indexed_name(prefix: &str, i: usize) -> (r: String)
    ensures
        r@ == prefix@ + decimal(i as nat),
        r@.len() > prefix@.len(),
{
    let mut s = prefix.to_owned();
    push_decimal(&mut s, i);
    assert(decimal(i as nat).len() >= 1);
    s
}

/// The character of `word` in column `i` of a sum `width` columns wide,
/// upper-cased; `#` left of the word's first character.
fn column_char(word: &Vec<char>, width: usize, i: usize) -> (r: char)
    requires
        word@.len() <= width,
        i < width,
    ensures
        i < width - word@.len() ==> r == '#',
        i >= width - word@.len() ==> r == upper(word@[i - (width - word@.len())]),
{
    let pad = width - word.len();
    if i < pad {
        '#'
    } else {
        to_upper(word[i - pad])
    }
}

/// The domain of a column component: `[0]` for padding, the ten digits otherwise.
fn digits_for(c: char) -> (r: Vec<i32>)
    ensures
        c == '#' ==> r@ == seq![0i32],
        c != '#' ==> r@.len() == 10 && forall|k: int| 0 <= k < 10 ==> r@[k] == k,
{
    if c == '#' {
        let mut v: Vec<i32> = Vec::new();
        v.push(0);
        assert(v@ =~= seq![0i32]);
        v
    } else {
        let mut v: Vec<i32> = Vec::new();
        let mut d: i32 = 0;
        while d < 10
            invariant
                0 <= d <= 10,
                v@.len() == d,
                forall|k: int| 0 <= k < d ==> v@[k] == k,
            decreases 10 - d,
        {
            v.push(d);
            d = d + 1;
        }
        v
    }
}

/// Whether `c` occurs in `v`.
fn contains_char(v: &Vec<char>, c: char) -> (r: bool)
    ensures
        r == v@.contains(c),
{
    let mut i: usize = 0;
    while i < v.len()
        invariant
            i <= v@.len(),
            forall|j: int| 0 <= j < i ==> v@[j] != c,
        decreases v@.len() - i,
    {
        if v[i] == c {
            assert(v@[i as int] == c);
            return true;
        }
        i = i + 1;
    }
    false
}

/// `ch` is the upper-cased form of some character of `word`.
pub open spec fn occurs(word: Seq<char>, ch: char) -> bool {
    exists|p: int| 0 <= p < word.len() && upper(word[p]) == ch
}

/// Every character of `word` that lies in column `col` or right of it, in a sum
/// `width` columns wide, is in `letters` once upper-cased, unless it is `#`.
pub open spec fn covered(word: Seq<char>, width: int, col: int, letters: Seq<char>) -> bool {
    forall|p: int| 0 <= p < word.len() && width - word.len() + p >= col && upper(word[p]) != '#'
        ==> letters.contains(#[trigger] upper(word[p]))
}

/// `c` requires the single-letter variable `ch` to be non-zero.
pub open spec fn nonzero_on(c: Constraint<Relation>, ch: char) -> bool {
    c matches Constraint::Unary(x, Relation::NonZero) && x@ == seq![ch]
}

/// `c` requires the single-letter variables `a` and `b` to differ.
pub open spec fn distinct_on(c: Constraint<Relation>, a: char, b: char) -> bool {
    c matches Constraint::Binary(x, y, Relation::Distinct) && x@ == seq![a] && y@ == seq![b]
}

/// Some constraint of `cs` requires `a` and `b` to differ.
pub open spec fn has_distinct(cs: Seq<Constraint<Relation>>, a: char, b: char) -> bool {
    exists|k: int| 0 <= k < cs.len() && distinct_on(cs[k], a, b)
}

/// The first letter of `word`, if any, is required to be non-zero by `cs`.
pub open spec fn leading_nonzero(cs: Seq<Constraint<Relation>>, word: Seq<char>) -> bool {
    word.len() > 0 ==> exists|k: int| 0 <= k < cs.len() && nonzero_on(cs[k], upper(word[0]))
}

proof fn lemma_contains_push(s: Seq<char>, x: char, y: char)
    requires
        s.contains(x),
    ensures
        s.push(y).contains(x),
{
    let j = choose|j: int| 0 <= j < s.len() && s[j] == x;
    assert(s.push(y)[j] == x);
}

proof fn lemma_covered_push(word: Seq<char>, width: int, col: int, letters: Seq<char>, y: char)
    requires
        covered(word, width, col, letters),
    ensures
        covered(word, width, col, letters.push(y)),
{
    assert forall|p: int| 0 <= p < word.len() && width - word.len() + p >= col && upper(word[p]) != '#'
        implies letters.push(y).contains(#[trigger] upper(word[p])) by {
        lemma_contains_push(letters, upper(word[p]), y);
    }
}

proof fn lemma_has_distinct_push(cs: Seq<Constraint<Relation>>, c: Constraint<Relation>, a: char, b: char)
    requires
        has_distinct(cs, a, b),
    ensures
        has_distinct(cs.push(c), a, b),
{
    let k = choose|k: int| 0 <= k < cs.len() && distinct_on(cs[k], a, b);
    assert(cs.push(c)[k] == cs[k]);
}

/// A domain holding the digits 0 to 9, in order.
pub open spec fn digit_domain(d: Seq<VariableType<i32>>) -> bool {
    d.len() == 10 && forall|k: int| 0 <= k < 10 ==> d[k] == VariableType::<i32>::Value(k as i32)
}

/// Every single-character name of the store is `#` or one of `letters`, and
/// every one of `letters` is a variable whose domain is the ten digits.
pub open spec fn letters_registered(v: Variables<i32>, letters: Seq<char>) -> bool {
    &&& forall|j: int| 0 <= j < v.names_view().len() && (#[trigger] v.names_view()[j]).len() == 1
        ==> v.names_view()[j] == seq!['#'] || letters.contains(v.names_view()[j][0])
    &&& forall|a: int| 0 <= a < letters.len() ==> (#[trigger] v.dom_of(seq![letters[a]]) matches Some(d)
        && digit_domain(d))
}

/// Registering a name longer than one character keeps the letters registered.
proof fn lemma_long_key(prev: Variables<i32>, next: Variables<i32>, key: Seq<char>, letters: Seq<char>)
    requires
        prev.wf(),
        next.wf(),
        key.len() != 1,
        letters_registered(prev, letters),
        next == prev || (
            (forall|n: Seq<char>| n != key ==> next.dom_of(n) == prev.dom_of(n))
            && (next.names_view() == prev.names_view() || next.names_view() == prev.names_view().push(key))),
    ensures
        letters_registered(next, letters),
{
    if next != prev {
        assert forall|a: int| 0 <= a < letters.len() implies (#[trigger] next.dom_of(seq![letters[a]]) matches Some(d)
            && digit_domain(d)) by {
            assert(seq![letters[a]].len() == 1);
            assert(seq![letters[a]] != key);
            assert(prev.dom_of(seq![letters[a]]) matches Some(d) && digit_domain(d));
        }
        assert forall|j: int| 0 <= j < next.names_view().len() && (#[trigger] next.names_view()[j]).len() == 1
            implies next.names_view()[j] == seq!['#'] || letters.contains(next.names_view()[j][0]) by {
            if j < prev.names_view().len() {
                assert(next.names_view()[j] == prev.names_view()[j]);
            }
        }
    }
}

/// Registers the letter `ch` as a digit variable, unless it is `#` or is
/// already registered.
fn note_letter(letters: &mut Vec<char>, variables: &mut Variables<i32>, ch: char)
    requires
        old(variables).wf(),
        letters_registered(*old(variables), old(letters)@),
    ensures
        final(variables).wf(),
        letters_registered(*final(variables), final(letters)@),
        final(letters)@ == if ch != '#' && !old(letters)@.contains(ch) {
            old(letters)@.push(ch)
        } else {
            old(letters)@
        },
{
    if ch != '#' && !contains_char(letters, ch) {
        let ghost before = letters@;
        let ghost prev = *variables;
        letters.push(ch);
        let name = char_name(ch);
        proof {
            if has_name(prev.names_view(), name@) {
                let j = index_of(prev.names_view(), name@);
                assert(prev.names_view()[j] == name@);
                assert(name@[0] == ch);
            }
        }
        let d = digits_for(ch);
        let ok = variables.insert(&name, d);
        proof {
            assert(ok);
            assert(letters@[before.len() as int] == ch);
            assert forall|a: int| 0 <= a < letters@.len() implies (#[trigger] variables.dom_of(seq![letters@[a]]) matches Some(dd)
                && digit_domain(dd)) by {
                if a < before.len() {
                    assert(letters@[a] == before[a]);
                    assert(letters@[a] != ch);
                    assert(seq![letters@[a]] != name@) by {
                        assert(seq![letters@[a]][0] != name@[0]);
                    }
                    assert(prev.dom_of(seq![before[a]]) matches Some(dd) && digit_domain(dd));
                } else {
                    assert(seq![letters@[a]] == name@);
                    assert(scalars(d@)[0] == VariableType::<i32>::Value(d@[0]));
                }
            }
            assert forall|j: int| 0 <= j < variables.names_view().len() && (#[trigger] variables.names_view()[j]).len() == 1
                implies variables.names_view()[j] == seq!['#'] || letters@.contains(variables.names_view()[j][0]) by {
                if j < prev.names_view().len() {
                    assert(variables.names_view()[j] == prev.names_view()[j]);
                    if prev.names_view()[j] != seq!['#'] {
                        lemma_contains_push(before, prev.names_view()[j][0], ch);
                    }
                } else {
                    assert(variables.names_view()[j] == name@);
                    assert(letters@.contains(ch));
                }
            }
        }
    }
}

/// Notes the three characters of a column and keeps the letter invariants.
fn note_column(
    letters: &mut Vec<char>,
    variables: &mut Variables<i32>,
    left: &Vec<char>,
    right: &Vec<char>,
    result: &Vec<char>,
    width: usize,
    i: usize,
)
    requires
        old(variables).wf(),
        left@.len() <= width,
        right@.len() <= width,
        result@.len() <= width,
        i < width,
        forall|a: int, b: int| 0 <= a < b < old(letters)@.len() ==> old(letters)@[a] != old(letters)@[b],
        forall|a: int| 0 <= a < old(letters)@.len() ==> old(letters)@[a] != '#',
        forall|a: int| 0 <= a < old(letters)@.len() ==> occurs(left@, #[trigger] old(letters)@[a])
            || occurs(right@, old(letters)@[a]) || occurs(result@, old(letters)@[a]),
        covered(left@, width as int, i + 1, old(letters)@),
        covered(right@, width as int, i + 1, old(letters)@),
        covered(result@, width as int, i + 1, old(letters)@),
        letters_registered(*old(variables), old(letters)@),
    ensures
        final(variables).wf(),
        letters_registered(*final(variables), final(letters)@),
        forall|a: int, b: int| 0 <= a < b < final(letters)@.len() ==> final(letters)@[a] != final(letters)@[b],
        forall|a: int| 0 <= a < final(letters)@.len() ==> final(letters)@[a] != '#',
        forall|a: int| 0 <= a < final(letters)@.len() ==> occurs(left@, #[trigger] final(letters)@[a])
            || occurs(right@, final(letters)@[a]) || occurs(result@, final(letters)@[a]),
        covered(left@, width as int, i as int, final(letters)@),
        covered(right@, width as int, i as int, final(letters)@),
        covered(result@, width as int, i as int, final(letters)@),
{
    let words = [left, right, result];
    let mut w: usize = 0;
    while w < 3
        invariant
            w <= 3,
            words@ == seq![left, right, result],
            variables.wf(),
            left@.len() <= width,
            right@.len() <= width,
            result@.len() <= width,
            i < width,
            forall|a: int, b: int| 0 <= a < b < letters@.len() ==> letters@[a] != letters@[b],
            forall|a: int| 0 <= a < letters@.len() ==> letters@[a] != '#',
            forall|a: int| 0 <= a < letters@.len() ==> occurs(left@, #[trigger] letters@[a])
                || occurs(right@, letters@[a]) || occurs(result@, letters@[a]),
            covered(left@, width as int, if w > 0 { i as int } else { i + 1 }, letters@),
            covered(right@, width as int, if w > 1 { i as int } else { i + 1 }, letters@),
            covered(result@, width as int, if w > 2 { i as int } else { i + 1 }, letters@),
            letters_registered(*variables, letters@),
        decreases 3 - w,
    {
        let word = words[w];
        let ch = column_char(word, width, i);
        let ghost before = letters@;
        note_letter(letters, variables, ch);
        proof {
            let pad = width - word@.len();
            let cl: int = if w > 0 { i as int } else { i + 1 };
            let cr: int = if w > 1 { i as int } else { i + 1 };
            let cz: int = if w > 2 { i as int } else { i + 1 };
            assert(word == words@[w as int]);
            if ch != '#' && !before.contains(ch) {
                lemma_covered_push(left@, width as int, cl, before, ch);
                lemma_covered_push(right@, width as int, cr, before, ch);
                lemma_covered_push(result@, width as int, cz, before, ch);
                assert(i >= pad);
                assert(occurs(word@, ch)) by {
                    assert(upper(word@[i - pad]) == ch);
                }
                assert(letters@[letters@.len() - 1] == ch);
                assert(letters@.contains(ch));
                assert(occurs(left@, ch) || occurs(right@, ch) || occurs(result@, ch));
            }
            assert(ch != '#' ==> letters@.contains(ch)) by {
                if ch != '#' && before.contains(ch) {
                    assert(letters@ == before);
                }
            }
            assert(covered(word@, width as int, i as int, letters@)) by {
                assert forall|p: int| 0 <= p < word@.len() && width - word@.len() + p >= i && upper(word@[p]) != '#'
                    implies letters@.contains(#[trigger] upper(word@[p])) by {
                    if width - word@.len() + p == i {
                        assert(ch == upper(word@[p]));
                    } else {
                        assert(covered(word@, width as int, i + 1, before));
                        assert(before.contains(upper(word@[p])));
                        if letters@ != before {
                            lemma_contains_push(before, upper(word@[p]), ch);
                        }
                    }
                }
            }
        }
        w = w + 1;
    }
}

/// A cryptarithm `left + right = result` as variables and constraints.
pub struct Puzzle {
    /// The distinct letters, upper-cased, in the order they were registered.
    pub letters: Vec<char>,
    pub variables: Variables<i32>,
    pub constraints: Vec<Constraint<Relation>>,
}

/// Encodes `left + right = result`. Each letter is a digit variable; letters
/// differ pairwise; the first letter of each word is not 0. Column `i` (from
/// the left) has a record variable `HIDDEN_i` whose domain is every tuple of
/// its two addend digits, sum digit, carry in (`CARRY_i`) and carry out
/// (`CARRY_{i-1}`, or the padding variable `#` for the leftmost column),
/// constrained to add up and tied to each component by a projection. Words
/// are right-aligned and padded on the left with `#`. Variables are
/// registered column by column from the right, record first.
pub fn encode_puzzle(left: &Vec<char>, right: &Vec<char>, result: &Vec<char>) -> (r: Puzzle)
    ensures
        r.variables.wf(),
        forall|a: int, b: int| 0 <= a < b < r.letters@.len() ==> r.letters@[a] != r.letters@[b],
        forall|a: int| 0 <= a < r.letters@.len() ==> r.letters@[a] != '#',
        forall|a: int| 0 <= a < r.letters@.len() ==> occurs(left@, #[trigger] r.letters@[a])
            || occurs(right@, r.letters@[a]) || occurs(result@, r.letters@[a]),
        forall|p: int| 0 <= p < left@.len() && upper(left@[p]) != '#' ==> r.letters@.contains(#[trigger] upper(left@[p])),
        forall|p: int| 0 <= p < right@.len() && upper(right@[p]) != '#' ==> r.letters@.contains(#[trigger] upper(right@[p])),
        forall|p: int| 0 <= p < result@.len() && upper(result@[p]) != '#' ==> r.letters@.contains(#[trigger] upper(result@[p])),
        forall|a: int, b: int| 0 <= a < r.letters@.len() && 0 <= b < r.letters@.len() && a != b
            ==> #[trigger] has_distinct(r.constraints@, r.letters@[a], r.letters@[b]),
        leading_nonzero(r.constraints@, left@),
        leading_nonzero(r.constraints@, right@),
        leading_nonzero(r.constraints@, result@),
        forall|a: int| 0 <= a < r.letters@.len() ==> (#[trigger] r.variables.dom_of(seq![r.letters@[a]]) matches Some(d)
            && digit_domain(d)),
{
    let mut width = left.len();
    if right.len() > width {
        width = right.len();
    }
    if result.len() > width {
        width = result.len();
    }
    let mut variables: Variables<i32> = Variables::new();
    let mut constraints: Vec<Constraint<Relation>> = Vec::new();
    let mut letters: Vec<char> = Vec::new();

    let pad = char_name('#');
    let mut zero: Vec<i32> = Vec::new();
    zero.push(0);
    variables.insert(&pad, zero);
    assert(letters_registered(variables, letters@)) by {
        assert forall|j: int| 0 <= j < variables.names_view().len() && (#[trigger] variables.names_view()[j]).len() == 1
            implies variables.names_view()[j] == seq!['#'] || letters@.contains(variables.names_view()[j][0]) by {
            assert(variables.names_view() =~= seq![pad@]);
        }
    }
    constraints.push(Constraint::Unary(char_name('#'), Relation::Zero));
    if width > 0 {
        constraints.push(Constraint::Unary(indexed_name("CARRY_", width - 1), Relation::Zero));
    }
    if left.len() > 0 {
        constraints.push(Constraint::Unary(char_name(to_upper(left[0])), Relation::NonZero));
        assert(nonzero_on(constraints@[constraints@.len() - 1], upper(left@[0])));
    }
    let ghost n_left = constraints@.len();
    if right.len() > 0 {
        constraints.push(Constraint::Unary(char_name(to_upper(right[0])), Relation::NonZero));
        assert(nonzero_on(constraints@[constraints@.len() - 1], upper(right@[0])));
    }
    let ghost n_right = constraints@.len();
    if result.len() > 0 {
        constraints.push(Constraint::Unary(char_name(to_upper(result[0])), Relation::NonZero));
        assert(nonzero_on(constraints@[constraints@.len() - 1], upper(result@[0])));
    }
    let ghost cs0 = constraints@;
    assert(leading_nonzero(cs0, left@)) by {
        if left@.len() > 0 {
            assert(nonzero_on(cs0[n_left - 1], upper(left@[0])));
        }
    }
    assert(leading_nonzero(cs0, right@)) by {
        if right@.len() > 0 {
            assert(nonzero_on(cs0[n_right - 1], upper(right@[0])));
        }
    }
    assert(leading_nonzero(cs0, result@));

    let mut col: usize = width;
    while col > 0
        invariant
            variables.wf(),
            forall|a: int, b: int| 0 <= a < b < letters@.len() ==> letters@[a] != letters@[b],
            forall|a: int| 0 <= a < letters@.len() ==> letters@[a] != '#',
            forall|a: int| 0 <= a < letters@.len() ==> occurs(left@, #[trigger] letters@[a])
                || occurs(right@, letters@[a]) || occurs(result@, letters@[a]),
            covered(left@, width as int, col as int, letters@),
            covered(right@, width as int, col as int, letters@),
            covered(result@, width as int, col as int, letters@),
            letters_registered(variables, letters@),
            constraints@.len() >= cs0.len(),
            forall|k: int| 0 <= k < cs0.len() ==> constraints@[k] == cs0[k],
            col <= width,
            left@.len() <= width,
            right@.len() <= width,
            result@.len() <= width,
        decreases col,
    {
        let i = col - 1;
        let c0 = column_char(left, width, i);
        let c1 = column_char(right, width, i);
        let c2 = column_char(result, width, i);
        let n0 = char_name(c0);
        let n1 = char_name(c1);
        let n2 = char_name(c2);
        let carry_in = indexed_name("CARRY_", i);
        let carry_out = if i == 0 { char_name('#') } else { indexed_name("CARRY_", i - 1) };
        let d0 = digits_for(c0);
        let d1 = digits_for(c1);
        let d2 = digits_for(c2);
        let mut bits: Vec<i32> = Vec::new();
        bits.push(0);
        bits.push(1);
        let mut out_bits: Vec<i32> = Vec::new();
        out_bits.push(0);
        if i > 0 {
            out_bits.push(1);
        }

        let mut tuples: Vec<Record<i32>> = Vec::new();
        for a in iter: d0.iter() {
            for b in iter: d1.iter() {
                for c in iter: d2.iter() {
                    for ci in iter: bits.iter() {
                        for co in iter: out_bits.iter() {
                            let mut h: Record<i32> = Record::new();
                            h.insert(n0.clone(), *a);
                            h.insert(n1.clone(), *b);
                            h.insert(n2.clone(), *c);
                            h.insert(carry_in.clone(), *ci);
                            h.insert(carry_out.clone(), *co);
                            tuples.push(h);
                        }
                    }
                }
            }
        }
        let h_name = indexed_name("HIDDEN_", i);
        proof { reveal_strlit("HIDDEN_"); }
        let ghost prev = variables;
        variables.insert_hidden(&h_name, tuples);
        proof { lemma_long_key(prev, variables, h_name@, letters@); }
        constraints.push(Constraint::Unary(h_name.clone(), Relation::ColumnSum(
            n0.clone(),
            n1.clone(),
            n2.clone(),
            carry_in.clone(),
            carry_out.clone(),
        )));

        note_column(&mut letters, &mut variables, left, right, result, width, i);
        proof { reveal_strlit("CARRY_"); }
        let ghost prev = variables;
        variables.insert(&carry_in, bits);
        proof { lemma_long_key(prev, variables, carry_in@, letters@); }

        let parts = [n0, n1, n2, carry_in, carry_out];
        let mut k: usize = 0;
        while k < 5
            invariant
                variables.wf(),
                letters_registered(variables, letters@),
                constraints@.len() >= cs0.len(),
                forall|m: int| 0 <= m < cs0.len() ==> constraints@[m] == cs0[m],
            decreases 5 - k,
        {
            let part = parts[k].clone();
            constraints.push(Constraint::Binary(part.clone(), h_name.clone(), Relation::Projection(part)));
            k = k + 1;
        }
        col = i;
    }

    let mut x: usize = 0;
    while x < letters.len()
        invariant
            variables.wf(),
            letters_registered(variables, letters@),
            constraints@.len() >= cs0.len(),
            forall|m: int| 0 <= m < cs0.len() ==> constraints@[m] == cs0[m],
            forall|a: int, b: int| 0 <= a < x && 0 <= b < letters@.len() && a != b
                ==> #[trigger] has_distinct(constraints@, letters@[a], letters@[b]),
        decreases letters@.len() - x,
    {
        let mut y: usize = 0;
        while y < letters.len()
            invariant
                variables.wf(),
                letters_registered(variables, letters@),
                x < letters@.len(),
                constraints@.len() >= cs0.len(),
                forall|m: int| 0 <= m < cs0.len() ==> constraints@[m] == cs0[m],
                forall|a: int, b: int| (0 <= a < x || (a == x && b < y)) && 0 <= b < letters@.len() && a != b
                    ==> #[trigger] has_distinct(constraints@, letters@[a], letters@[b]),
            decreases letters@.len() - y,
        {
            if x != y {
                let ghost before = constraints@;
                let c = Constraint::Binary(char_name(letters[x]), char_name(letters[y]), Relation::Distinct);
                constraints.push(c);
                proof {
                    assert forall|a: int, b: int| (0 <= a < x || (a == x && b <= y)) && 0 <= b < letters@.len() && a != b
                        implies #[trigger] has_distinct(constraints@, letters@[a], letters@[b]) by {
                        if a == x && b == y {
                            assert(distinct_on(constraints@[before.len() as int], letters@[a], letters@[b]));
                        } else {
                            lemma_has_distinct_push(before, c, letters@[a], letters@[b]);
                        }
                    }
                }
            }
            y = y + 1;
        }
        x = x + 1;
    }
    let r = Puzzle { letters, variables, constraints };
    proof {
        assert(leading_nonzero(r.constraints@, left@)) by {
            if left@.len() > 0 {
                let k = choose|k: int| 0 <= k < cs0.len() && nonzero_on(cs0[k], upper(left@[0]));
                assert(r.constraints@[k] == cs0[k]);
            }
        }
        assert(leading_nonzero(r.constraints@, right@)) by {
            if right@.len() > 0 {
                let k = choose|k: int| 0 <= k < cs0.len() && nonzero_on(cs0[k], upper(right@[0]));
                assert(r.constraints@[k] == cs0[k]);
            }
        }
        assert(leading_nonzero(r.constraints@, result@)) by {
            if result@.len() > 0 {
                let k = choose|k: int| 0 <= k < cs0.len() && nonzero_on(cs0[k], upper(result@[0]));
                assert(r.constraints@[k] == cs0[k]);
            }
        }
    }
    r
}

/// Solves `left + right = result`: encodes it, filters the domains, searches,
/// and reads back the digit of each letter, in the order of `letters` of the
/// encoding. The answer is checked before it is returned; `None` when the
/// search finds no assignment.
pub fn solve_puzzle(left: &Vec<char>, right: &Vec<char>, result: &Vec<char>) -> (r: Option<Vec<(char, i32)>>)
    ensures
        r matches Some(m) ==> solves(left@, right@, result@, m@),
        r matches Some(m) ==> word_value(left@, m@) + word_value(right@, m@) == word_value(result@, m@),
{
    let mut puzzle = encode_puzzle(left, right, result);
    filter_domain(&mut puzzle.variables, &puzzle.constraints);
    match solution(&puzzle.variables, &puzzle.constraints) {
        Some(asg) => {
            let mut out: Vec<(char, i32)> = Vec::new();
            let mut i: usize = 0;
            while i < puzzle.letters.len()
                invariant
                    out@.len() == i,
                    i <= puzzle.letters@.len(),
                    forall|j: int| 0 <= j < i ==> (#[trigger] out@[j]).0 == puzzle.letters@[j],
                decreases puzzle.letters@.len() - i,
            {
                let name = char_name(puzzle.letters[i]);
                match asg.get(&name) {
                    Some(VariableType::Value(d)) => out.push((puzzle.letters[i], *d)),
                    _ => return None,
                }
                i = i + 1;
            }
            if check_solution(left, right, result, &out) {
                proof { lemma_solution_adds_up(left@, right@, result@, out@); }
                Some(out)
            } else {
                None
            }
        },
        None => None,
    }
}

} // verus!
