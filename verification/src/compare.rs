//! The feedback comparator: scores a guess against a target word and encodes
//! the per-position feedback as a base-3 number.

use crate::word_set::Word;
use vstd::prelude::*;

verus! {

/// The error returned when a guess and a target of different lengths are
/// compared, carrying both lengths for diagnostics.
#[derive(Debug, PartialEq, Eq, Structural, Clone, Copy)]
pub struct LengthMismatchError {
    /// The length of the target word.
    pub expected: usize,
    /// The length of the guess word.
    pub got: usize,
}

/// The classification of one guess position against the target word.
#[derive(Copy, Clone, PartialEq, Eq, Structural, Debug)]
pub enum CompareValue {
    /// The symbol is absent from the target, once multiplicities already
    /// claimed by other positions are accounted for.
    NotUsed,
    /// The symbol occurs in the target, but not at this position.
    WrongLocation,
    /// The symbol matches the target at this position.
    RightLocation,
}

/// The ordinal of a feedback classification, used as a base-3 digit.
pub open spec fn ordinal(v: CompareValue) -> int {
    match v {
        CompareValue::NotUsed => 0,
        CompareValue::WrongLocation => 1,
        CompareValue::RightLocation => 2,
    }
}

/// The feedback classification with the given ordinal (digits 0, 1, 2).
pub open spec fn value_of_ordinal(d: int) -> CompareValue {
    if d == 0 {
        CompareValue::NotUsed
    } else if d == 1 {
        CompareValue::WrongLocation
    } else {
        CompareValue::RightLocation
    }
}

/// 3 raised to the power `n`.
pub open spec fn pow3(n: nat) -> int
    decreases n,
{
    if n == 0 {
        1
    } else {
        3 * pow3((n - 1) as nat)
    }
}

/// The base-3 encoding of a feedback vector: position 0 is the least
/// significant digit, so the value is the sum of `ordinal(values[i]) * 3^i`.
pub open spec fn encode(values: Seq<CompareValue>) -> int
    decreases values.len(),
{
    if values.len() == 0 {
        0
    } else {
        ordinal(values[0]) + 3 * encode(values.drop_first())
    }
}

/// The inverse of `encode`: the `len` base-3 digits of `n`, least significant
/// digit first, each read back as a feedback classification.
pub open spec fn decode(n: int, len: nat) -> Seq<CompareValue>
    decreases len,
{
    if len == 0 {
        Seq::empty()
    } else {
        seq![value_of_ordinal(n % 3)] + decode(n / 3, (len - 1) as nat)
    }
}

/// An encoded feedback vector lies in `[0, 3^len)`.
pub proof fn lemma_encode_bounds(values: Seq<CompareValue>)
    ensures
        0 <= encode(values) < pow3(values.len()),
    decreases values.len(),
{
    if values.len() > 0 {
        lemma_encode_bounds(values.drop_first());
    }
}

/// Round-trip law, one direction: decoding an encoded feedback vector gives
/// the vector back, for every vector.
pub proof fn lemma_decode_encode(values: Seq<CompareValue>)
    ensures
        decode(encode(values), values.len()) == values,
    decreases values.len(),
{
    if values.len() > 0 {
        let rest = values.drop_first();
        lemma_encode_bounds(rest);
        assert(encode(values) % 3 == ordinal(values[0]));
        assert(encode(values) / 3 == encode(rest));
        lemma_decode_encode(rest);
        assert(decode(encode(values), values.len()) =~= values);
    } else {
        assert(decode(encode(values), values.len()) =~= values);
    }
}

/// Round-trip law, other direction: encoding the decoding of an integer in
/// `[0, 3^len)` gives the integer back.
pub proof fn lemma_encode_decode(n: int, len: nat)
    requires
        0 <= n < pow3(len),
    ensures
        encode(decode(n, len)) == n,
    decreases len,
{
    if len > 0 {
        let d = n % 3;
        assert(0 <= d < 3);
        assert(ordinal(value_of_ordinal(d)) == d);
        lemma_encode_decode(n / 3, (len - 1) as nat);
        let s = seq![value_of_ordinal(d)] + decode(n / 3, (len - 1) as nat);
        assert(s.drop_first() =~= decode(n / 3, (len - 1) as nat));
        assert(encode(s) == d + 3 * (n / 3));
    }
}

/// The number of positions `k` in `[0, i)` where the guess has the symbol `c`
/// and does not match the target exactly. These are the earlier guess
/// positions that claim an available slot of `c` before position `i` does.
pub open spec fn claimed_before(g: Seq<char>, a: Seq<char>, c: char, i: int) -> int
    decreases i,
{
    if i <= 0 {
        0
    } else {
        claimed_before(g, a, c, i - 1) + if g[i - 1] == c && g[i - 1] != a[i - 1] {
            1int
        } else {
            0int
        }
    }
}

/// The number of positions `j` in `[0, j_end)` where the target has the
/// symbol `c` and the guess does not match it exactly: the slots of `c` left
/// over for displaced matches after the exact-match pass.
pub open spec fn available_before(g: Seq<char>, a: Seq<char>, c: char, j_end: int) -> int
    decreases j_end,
{
    if j_end <= 0 {
        0
    } else {
        available_before(g, a, c, j_end - 1) + if a[j_end - 1] == c && g[j_end - 1] != a[j_end
            - 1] {
            1int
        } else {
            0int
        }
    }
}

/// The number of target slots holding the symbol `c` that are not exact
/// matches: the budget of `WrongLocation` credits for `c`.
pub open spec fn available(g: Seq<char>, a: Seq<char>, c: char) -> int {
    available_before(g, a, c, a.len() as int)
}

/// The feedback for guess position `i` against the target `a`, per the
/// two-pass greedy rule: an exact match is `RightLocation`; otherwise the
/// position is `WrongLocation` exactly when the slots of its symbol left over
/// from the exact-match pass have not all been claimed by earlier guess
/// positions; otherwise `NotUsed`.
pub open spec fn feedback_at(g: Seq<char>, a: Seq<char>, i: int) -> CompareValue {
    if g[i] == a[i] {
        CompareValue::RightLocation
    } else if claimed_before(g, a, g[i], i) < available(g, a, g[i]) {
        CompareValue::WrongLocation
    } else {
        CompareValue::NotUsed
    }
}

/// The full feedback vector of a guess against a target of the same length.
pub open spec fn feedback(g: Seq<char>, a: Seq<char>) -> Seq<CompareValue> {
    Seq::new(g.len(), |i: int| feedback_at(g, a, i))
}

/// Self-comparison law: comparing any word with itself marks every position
/// `RightLocation`.
pub proof fn lemma_compare_self(w: Seq<char>)
    ensures
        feedback(w, w).len() == w.len(),
        forall|i: int|
            0 <= i < w.len() ==> feedback(w, w)[i] == CompareValue::RightLocation,
{
}

/// The number of positions `j` in `[0, j_end)` where the target holds the
/// symbol `c` and the slot is not yet consumed. This tracks, during the
/// displaced-match pass, how many slots of `c` are still open.
pub open spec fn unused_count(a: Seq<char>, used: Seq<bool>, c: char, j_end: int) -> int
    decreases j_end,
{
    if j_end <= 0 {
        0
    } else {
        unused_count(a, used, c, j_end - 1) + if a[j_end - 1] == c && !used[j_end - 1] {
            1int
        } else {
            0int
        }
    }
}

/// The number of open slots of `c` that the displaced-match pass leaves once
/// the first `i` guess positions have claimed their shares.
pub open spec fn expected_unused(g: Seq<char>, a: Seq<char>, c: char, i: int) -> int {
    if claimed_before(g, a, c, i) <= available(g, a, c) {
        available(g, a, c) - claimed_before(g, a, c, i)
    } else {
        0
    }
}

proof fn lemma_counts_nonneg(g: Seq<char>, a: Seq<char>, c: char, i: int)
    ensures
        claimed_before(g, a, c, i) >= 0,
        available_before(g, a, c, i) >= 0,
    decreases i,
{
    if i > 0 {
        lemma_counts_nonneg(g, a, c, i - 1);
    }
}

proof fn lemma_unused_nonneg(a: Seq<char>, used: Seq<bool>, c: char, j_end: int)
    ensures
        unused_count(a, used, c, j_end) >= 0,
    decreases j_end,
{
    if j_end > 0 {
        lemma_unused_nonneg(a, used, c, j_end - 1);
    }
}

/// When every consumed flag agrees with the exact-match test, the open slots
/// of `c` are exactly the slots the exact-match pass left over.
proof fn lemma_unused_eq_available(
    g: Seq<char>,
    a: Seq<char>,
    used: Seq<bool>,
    c: char,
    j_end: int,
)
    requires
        used.len() >= j_end,
        a.len() >= j_end,
        g.len() >= j_end,
        forall|j: int| 0 <= j < j_end ==> used[j] == (g[j] == a[j]),
    ensures
        unused_count(a, used, c, j_end) == available_before(g, a, c, j_end),
    decreases j_end,
{
    if j_end > 0 {
        lemma_unused_eq_available(g, a, used, c, j_end - 1);
    }
}

/// Consuming one slot removes it from the open count of its own symbol and
/// leaves every other count unchanged.
proof fn lemma_unused_update(a: Seq<char>, used: Seq<bool>, c: char, j: int, j_end: int)
    requires
        0 <= j < used.len(),
        a.len() == used.len(),
        j_end <= used.len(),
    ensures
        unused_count(a, used.update(j, true), c, j_end) == unused_count(a, used, c, j_end) - (
        if j < j_end && a[j] == c && !used[j] {
            1int
        } else {
            0int
        }),
    decreases j_end,
{
    if j_end > 0 {
        lemma_unused_update(a, used, c, j, j_end - 1);
    }
}

/// If every slot of `c` below `j_end` is consumed or holds another symbol,
/// no slot of `c` is open there.
proof fn lemma_unused_zero(a: Seq<char>, used: Seq<bool>, c: char, j_end: int)
    requires
        forall|j: int| 0 <= j < j_end ==> used[j] || a[j] != c,
    ensures
        unused_count(a, used, c, j_end) == 0,
    decreases j_end,
{
    if j_end > 0 {
        lemma_unused_zero(a, used, c, j_end - 1);
    }
}

/// An open slot of `c` below `j_end` makes the open count positive.
proof fn lemma_unused_at_least_one(a: Seq<char>, used: Seq<bool>, c: char, j: int, j_end: int)
    requires
        0 <= j < j_end,
        a[j] == c,
        !used[j],
    ensures
        unused_count(a, used, c, j_end) >= 1,
    decreases j_end,
{
    lemma_unused_nonneg(a, used, c, j);
    if j < j_end - 1 {
        lemma_unused_at_least_one(a, used, c, j, j_end - 1);
    }
}

/// Finds the lowest-index target slot that still holds the symbol `c` and is
/// not yet consumed, scanning in position order.
fn find_unused_match(actual: &Word, used: &Vec<bool>, c: char) -> (r: Option<usize>)
    requires
        actual@.len() == used@.len(),
    ensures
        match r {
            Some(j) => j < actual@.len() && actual@[j as int] == c && !used@[j as int],
            None => forall|j: int| 0 <= j < actual@.len() ==> used@[j] || actual@[j] != c,
        },
{
    let n = actual.len();
    let mut j: usize = 0;
    while j < n
        invariant
            j <= n,
            n == actual@.len(),
            n == used@.len(),
            forall|j2: int| 0 <= j2 < j ==> used@[j2] || actual@[j2] != c,
        decreases n - j,
    {
        if !used[j] && actual.get(j) == c {
            return Some(j);
        }
        j = j + 1;
    }
    None
}

/// Compares a guess word against the actual word and returns the base-3
/// encoding of the feedback vector directly, skipping vector construction.
///
/// Fails with `LengthMismatchError` exactly when the two lengths differ.
/// Otherwise the result encodes the feedback computed by the two-pass rule:
/// an exact-match pass marks matching positions `RightLocation` and consumes
/// them, then a displaced-match pass walks the remaining guess positions in
/// order and credits each one `WrongLocation` if an unconsumed slot of its
/// symbol remains in the target, consuming the lowest such slot.
pub fn compare_as_num(guess: &Word, actual: &Word) -> (r: Result<u8, LengthMismatchError>)
    requires
        guess@.len() == actual@.len() ==> guess@.len() <= 5,
    ensures
        match r {
            Ok(n) => guess@.len() == actual@.len() && n as int == encode(
                feedback(guess@, actual@),
            ),
            Err(e) => guess@.len() != actual@.len() && e.expected == actual@.len() && e.got
                == guess@.len(),
        },
{
    let n = guess.len();
    if n != actual.len() {
        return Err(LengthMismatchError { expected: actual.len(), got: n });
    }
    let ghost g = guess@;
    let ghost a = actual@;

    let mut values: Vec<CompareValue> = Vec::new();
    let mut used_guess_chars: Vec<bool> = Vec::new();
    let mut used_actual_chars: Vec<bool> = Vec::new();
    let mut t: usize = 0;
    while t < n
        invariant
            t <= n,
            values@.len() == t,
            used_guess_chars@.len() == t,
            used_actual_chars@.len() == t,
            forall|k: int| 0 <= k < t ==> values@[k] == CompareValue::NotUsed,
            forall|k: int| 0 <= k < t ==> !used_guess_chars@[k],
            forall|k: int| 0 <= k < t ==> !used_actual_chars@[k],
        decreases n - t,
    {
        values.push(CompareValue::NotUsed);
        used_guess_chars.push(false);
        used_actual_chars.push(false);
        t = t + 1;
    }

    let mut i: usize = 0;
    while i < n
        invariant
            i <= n,
            n == g.len(),
            n == a.len(),
            g == guess@,
            a == actual@,
            values@.len() == n,
            used_guess_chars@.len() == n,
            used_actual_chars@.len() == n,
            forall|k: int|
                0 <= k < i ==> values@[k] == (if g[k] == a[k] {
                    CompareValue::RightLocation
                } else {
                    CompareValue::NotUsed
                }),
            forall|k: int| i <= k < n ==> values@[k] == CompareValue::NotUsed,
            forall|k: int| 0 <= k < i ==> used_guess_chars@[k] == (g[k] == a[k]),
            forall|k: int| i <= k < n ==> !used_guess_chars@[k],
            forall|k: int| 0 <= k < i ==> used_actual_chars@[k] == (g[k] == a[k]),
            forall|k: int| i <= k < n ==> !used_actual_chars@[k],
        decreases n - i,
    {
        if guess.get(i) == actual.get(i) {
            values[i] = CompareValue::RightLocation;
            used_guess_chars[i] = true;
            used_actual_chars[i] = true;
        }
        i = i + 1;
    }

    proof {
        assert forall|c: char| #[trigger] unused_count(a, used_actual_chars@, c, n as int)
            == expected_unused(g, a, c, 0) by {
            lemma_unused_eq_available(g, a, used_actual_chars@, c, n as int);
            lemma_counts_nonneg(g, a, c, n as int);
        }
    }

    let mut i: usize = 0;
    while i < n
        invariant
            i <= n,
            n == g.len(),
            n == a.len(),
            n <= 5,
            g == guess@,
            a == actual@,
            values@.len() == n,
            used_guess_chars@.len() == n,
            used_actual_chars@.len() == n,
            forall|k: int| 0 <= k < i ==> values@[k] == feedback_at(g, a, k),
            forall|k: int|
                i <= k < n ==> values@[k] == (if g[k] == a[k] {
                    CompareValue::RightLocation
                } else {
                    CompareValue::NotUsed
                }),
            forall|k: int|
                0 <= k < n ==> used_guess_chars@[k] == (g[k] == a[k] || (k < i && values@[k]
                    == CompareValue::WrongLocation)),
            forall|j: int| 0 <= j < n && g[j] == a[j] ==> used_actual_chars@[j],
            forall|c: char| #[trigger] unused_count(a, used_actual_chars@, c, n as int)
                == expected_unused(g, a, c, i as int),
        decreases n - i,
    {
        let ghost prev_used = used_actual_chars@;
        if !used_guess_chars[i] {
            let c = guess.get(i);
            match find_unused_match(actual, &used_actual_chars, c) {
                Some(j) => {
                    values[i] = CompareValue::WrongLocation;
                    used_guess_chars[i] = true;
                    used_actual_chars[j] = true;
                    proof {
                        lemma_unused_at_least_one(a, prev_used, c, j as int, n as int);
                        lemma_counts_nonneg(g, a, c, i as int);
                        assert(claimed_before(g, a, c, i as int) < available(g, a, c));
                        assert(feedback_at(g, a, i as int) == CompareValue::WrongLocation);
                        assert forall|c2: char|
                            #[trigger] unused_count(a, used_actual_chars@, c2, n as int)
                                == expected_unused(g, a, c2, i + 1) by {
                            lemma_unused_update(a, prev_used, c2, j as int, n as int);
                            assert(claimed_before(g, a, c2, i + 1) == claimed_before(
                                g,
                                a,
                                c2,
                                i as int,
                            ) + if g[i as int] == c2 && g[i as int] != a[i as int] {
                                1int
                            } else {
                                0int
                            });
                        }
                    }
                },
                None => {
                    proof {
                        lemma_unused_zero(a, used_actual_chars@, c, n as int);
                        assert(claimed_before(g, a, c, i as int) >= available(g, a, c));
                        assert(feedback_at(g, a, i as int) == CompareValue::NotUsed);
                        assert forall|c2: char|
                            #[trigger] unused_count(a, used_actual_chars@, c2, n as int)
                                == expected_unused(g, a, c2, i + 1) by {
                            assert(claimed_before(g, a, c2, i + 1) == claimed_before(
                                g,
                                a,
                                c2,
                                i as int,
                            ) + if g[i as int] == c2 && g[i as int] != a[i as int] {
                                1int
                            } else {
                                0int
                            });
                        }
                    }
                },
            }
        } else {
            proof {
                assert(g[i as int] == a[i as int]);
                assert(feedback_at(g, a, i as int) == CompareValue::RightLocation);
                assert forall|c2: char|
                    #[trigger] unused_count(a, used_actual_chars@, c2, n as int)
                        == expected_unused(g, a, c2, i + 1) by {
                    assert(claimed_before(g, a, c2, i + 1) == claimed_before(g, a, c2, i as int)
                        + if g[i as int] == c2 && g[i as int] != a[i as int] {
                        1int
                    } else {
                        0int
                    });
                }
            }
        }
        i = i + 1;
    }

    assert(values@ =~= feedback(g, a));
    Ok(static_value_num_impl(&values))
}

/// The base-3 encoding of a feedback vector, position 0 least significant.
fn static_value_num_impl(values: &Vec<CompareValue>) -> (r: u8)
    requires
        values@.len() <= 5,
    ensures
        r as int == encode(values@),
{
    let mut result: u8 = 0;
    let mut power: u8 = 1;
    let mut i: usize = 0;
    proof {
        assert(values@.take(0) =~= Seq::<CompareValue>::empty());
    }
    while i < values.len()
        invariant
            i <= values@.len() <= 5,
            power as int == pow3(i as nat),
            result as int == encode(values@.take(i as int)),
        decreases values@.len() - i,
    {
        let digit = value_ordinal(values[i]);
        proof {
            lemma_pow3_le(i as nat, 4);
            reveal_with_fuel(pow3, 6);
            assert(pow3(4) == 81);
            lemma_encode_bounds(values@.take(i as int));
            lemma_encode_push(values@.take(i as int), values@[i as int]);
            assert(values@.take(i + 1) =~= values@.take(i as int).push(values@[i as int]));
            assert(digit <= 2);
            assert(power as int * digit as int <= 162) by (nonlinear_arith)
                requires
                    power <= 81,
                    digit <= 2,
            ;
            assert(digit as int * pow3(i as nat) == power as int * digit as int)
                by (nonlinear_arith)
                requires
                    power as int == pow3(i as nat),
            ;
        }
        result = result + power * digit;
        power = power * 3;
        i = i + 1;
    }
    proof {
        assert(values@.take(values@.len() as int) =~= values@);
    }
    result
}

/// The ordinal of a feedback classification as a machine integer.
fn value_ordinal(v: CompareValue) -> (r: u8)
    ensures
        r as int == ordinal(v),
{
    match v {
        CompareValue::NotUsed => 0,
        CompareValue::WrongLocation => 1,
        CompareValue::RightLocation => 2,
    }
}

/// `pow3` is positive.
proof fn lemma_pow3_pos(m: nat)
    ensures
        pow3(m) > 0,
    decreases m,
{
    if m > 0 {
        lemma_pow3_pos((m - 1) as nat);
    }
}

/// `pow3` grows with its exponent.
pub proof fn lemma_pow3_le(m: nat, n: nat)
    requires
        m <= n,
    ensures
        0 < pow3(m) <= pow3(n),
    decreases n,
{
    lemma_pow3_pos(m);
    if m < n {
        lemma_pow3_le(m, (n - 1) as nat);
    }
}

/// Appending one classification adds its digit at the next power of 3.
proof fn lemma_encode_push(s: Seq<CompareValue>, x: CompareValue)
    ensures
        encode(s.push(x)) == encode(s) + ordinal(x) * pow3(s.len()),
    decreases s.len(),
{
    if s.len() == 0 {
        reveal_with_fuel(encode, 3);
        assert(s.push(x)[0] == x);
        assert(s.push(x).drop_first() =~= Seq::<CompareValue>::empty());
        assert(encode(s.push(x)) == ordinal(x));
        assert(pow3(s.len()) == 1);
    } else {
        assert(s.push(x).drop_first() =~= s.drop_first().push(x));
        lemma_encode_push(s.drop_first(), x);
        let o = ordinal(x);
        let p = pow3((s.len() - 1) as nat);
        assert(pow3(s.len()) == 3 * p);
        assert(o * (3 * p) == 3 * (o * p)) by (nonlinear_arith);
    }
}

/// The display character of a feedback classification.
pub open spec fn char_of_value(v: CompareValue) -> char {
    match v {
        CompareValue::NotUsed => '_',
        CompareValue::WrongLocation => '?',
        CompareValue::RightLocation => '.',
    }
}

/// Whether a character names a feedback classification.
pub open spec fn is_feedback_char(c: char) -> bool {
    c == '_' || c == '?' || c == '.'
}

/// The feedback classification named by a display character.
pub open spec fn value_of_char(c: char) -> CompareValue {
    if c == '_' {
        CompareValue::NotUsed
    } else if c == '?' {
        CompareValue::WrongLocation
    } else {
        CompareValue::RightLocation
    }
}

/// The display string of a feedback vector, character by character.
pub open spec fn value_chars(values: Seq<CompareValue>) -> Seq<char> {
    Seq::new(values.len(), |i: int| char_of_value(values[i]))
}

impl CompareValue {
    fn from_char(c: char) -> (v: CompareValue)
        requires
            is_feedback_char(c),
        ensures
            v == value_of_char(c),
    {
        if c == '_' {
            CompareValue::NotUsed
        } else if c == '?' {
            CompareValue::WrongLocation
        } else {
            CompareValue::RightLocation
        }
    }

    fn to_char(&self) -> (c: char)
        ensures
            c == char_of_value(*self),
    {
        match self {
            CompareValue::NotUsed => '_',
            CompareValue::WrongLocation => '?',
            CompareValue::RightLocation => '.',
        }
    }
}

/// The feedback classification with the given base-3 digit.
fn value_from_ordinal(d: u8) -> (v: CompareValue)
    requires
        d < 3,
    ensures
        v == value_of_ordinal(d as int),
{
    if d == 0 {
        CompareValue::NotUsed
    } else if d == 1 {
        CompareValue::WrongLocation
    } else {
        CompareValue::RightLocation
    }
}

/// Relies on `String::push`: appends the character to the end of the string.
#[verifier::external_body]
fn push_char(s: &mut String, c: char)
    ensures
        final(s)@ == old(s)@.push(c),
{
    s.push(c)
}

/// The feedback of one guess against one target word: the guess itself and
/// the per-position feedback vector.
#[derive(Debug)]
pub struct CompareResult {
    /// The guess that was scored.
    pub guess: String,
    /// The feedback classification for each position of the guess.
    pub values: Vec<CompareValue>,
}

impl CompareResult {
    /// Builds a result from a guess and a display string of feedback
    /// characters (`_`, `?`, `.`), reading its first five characters.
    pub fn from_string(guess: String, text: String) -> (r: CompareResult)
        requires
            text@.len() >= 5,
            forall|i: int| 0 <= i < 5 ==> is_feedback_char(text@[i]),
        ensures
            r.guess == guess,
            r.values@.len() == 5,
            forall|i: int| 0 <= i < 5 ==> r.values@[i] == value_of_char(text@[i]),
    {
        let mut values: Vec<CompareValue> = Vec::new();
        let mut i: usize = 0;
        while i < 5
            invariant
                i <= 5,
                text@.len() >= 5,
                forall|k: int| 0 <= k < 5 ==> is_feedback_char(text@[k]),
                values@.len() == i,
                forall|k: int| 0 <= k < i ==> values@[k] == value_of_char(text@[k]),
            decreases 5 - i,
        {
            values.push(CompareValue::from_char(text.as_str().get_char(i)));
            i = i + 1;
        }
        CompareResult { guess, values }
    }

    /// The base-3 encoding of a feedback vector, position 0 least significant.
    pub fn static_value_num(values: &Vec<CompareValue>) -> (r: u8)
        requires
            values@.len() <= 5,
        ensures
            r as int == encode(values@),
    {
        static_value_num_impl(values)
    }

    /// Rebuilds a result from a guess and an encoded feedback value in
    /// `[0, 243)`, by repeated base-3 digit extraction.
    pub fn from_value_num(text: String, value_num: u8) -> (r: CompareResult)
        requires
            value_num < 243,
        ensures
            r.guess == text,
            r.values@ == decode(value_num as int, 5),
    {
        let ghost orig = value_num as int;
        let mut values: Vec<CompareValue> = Vec::new();
        let mut mut_value_num = value_num;
        let mut i: usize = 0;
        proof {
            assert(Seq::<CompareValue>::empty() + decode(orig, 5) =~= decode(orig, 5));
        }
        while i < 5
            invariant
                i <= 5,
                values@.len() == i,
                values@ + decode(mut_value_num as int, (5 - i) as nat) == decode(orig, 5),
            decreases 5 - i,
        {
            let ghost v = mut_value_num as int;
            let digit = mut_value_num % 3;
            let x = value_from_ordinal(digit);
            proof {
                assert(decode(v, (5 - i) as nat) == seq![value_of_ordinal(v % 3)] + decode(
                    v / 3,
                    (5 - (i + 1)) as nat,
                ));
                assert((values@.push(x)) + decode(v / 3, (5 - (i + 1)) as nat) =~= values@ + (
                seq![x] + decode(v / 3, (5 - (i + 1)) as nat)));
                assert((v - v % 3) / 3 == v / 3) by (nonlinear_arith);
            }
            values.push(x);
            mut_value_num = (mut_value_num - digit) / 3;
            i = i + 1;
        }
        proof {
            assert(values@ + decode(mut_value_num as int, 0) =~= values@);
        }
        CompareResult { guess: text, values }
    }

    /// The display string of the feedback vector.
    pub fn value_str(&self) -> (r: String)
        ensures
            r@ == value_chars(self.values@),
    {
        let mut r = String::new();
        let mut i: usize = 0;
        while i < self.values.len()
            invariant
                i <= self.values@.len(),
                r@.len() == i,
                forall|k: int| 0 <= k < i ==> r@[k] == char_of_value(self.values@[k]),
            decreases self.values@.len() - i,
        {
            push_char(&mut r, self.values[i].to_char());
            i = i + 1;
        }
        proof {
            assert(r@ =~= value_chars(self.values@));
        }
        r
    }

    /// The base-3 encoding of this result's feedback vector.
    pub fn value_num(&self) -> (r: u8)
        requires
            self.values@.len() <= 5,
        ensures
            r as int == encode(self.values@),
    {
        Self::static_value_num(&self.values)
    }

    /// Whether every position of the guess matched the target exactly.
    pub fn is_all_correct(&self) -> (r: bool)
        ensures
            r == forall|i: int|
                0 <= i < self.values@.len() ==> self.values@[i] == CompareValue::RightLocation,
    {
        let mut i: usize = 0;
        while i < self.values.len()
            invariant
                i <= self.values@.len(),
                forall|k: int| 0 <= k < i ==> self.values@[k] == CompareValue::RightLocation,
            decreases self.values@.len() - i,
        {
            if !(self.values[i] == CompareValue::RightLocation) {
                return false;
            }
            i = i + 1;
        }
        true
    }

    /// The guess and the display string of its feedback, joined by `|`.
    pub fn to_string(&self) -> (r: String)
        ensures
            r@ == self.guess@.push('|') + value_chars(self.values@),
    {
        let mut r = self.guess.clone();
        push_char(&mut r, '|');
        let tail = self.value_str();
        r.append(tail.as_str());
        r
    }
}

/// Compares a guess string against the actual word, returning the guess and
/// its feedback vector. Fails with `LengthMismatchError` exactly when the two
/// lengths differ.
pub fn compare(guess: String, actual: String) -> (r: Result<CompareResult, LengthMismatchError>)
    requires
        guess@.len() == actual@.len() ==> guess@.len() <= 5,
    ensures
        match r {
            Ok(cr) => {
                &&& guess@.len() == actual@.len()
                &&& cr.guess@ == guess@
                &&& cr.values@ == decode(encode(feedback(guess@, actual@)), 5)
                &&& (guess@.len() == 5 ==> cr.values@ == feedback(guess@, actual@))
            },
            Err(e) => {
                &&& guess@.len() != actual@.len()
                &&& e.expected == actual@.len()
                &&& e.got == guess@.len()
            },
        },
{
    let guess_word = Word::from_str(guess.as_str());
    let actual_word = Word::from_string(actual);
    match compare_as_num(&guess_word, &actual_word) {
        Ok(value_num) => {
            proof {
                lemma_encode_bounds(feedback(guess_word@, actual_word@));
                lemma_pow3_le(feedback(guess_word@, actual_word@).len() as nat, 5);
                reveal_with_fuel(pow3, 6);
                if guess_word@.len() == 5 {
                    lemma_decode_encode(feedback(guess_word@, actual_word@));
                }
            }
            Ok(CompareResult::from_value_num(guess, value_num))
        },
        Err(err) => Err(err),
    }
}

} // verus!
