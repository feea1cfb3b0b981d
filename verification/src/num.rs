//! Numbers as they occur in the font-source dialect.
//!
//! A numeric leaf is either an integer (a signed 64-bit value) or a floating
//! value. A floating value is kept as its decimal lexeme, the exact run of
//! characters that spelled it in the source text; arithmetic on it is no
//! concern of the grammar or of the schema layer, and keeping the lexeme makes
//! re-serialization reproduce the number exactly. The lexeme grammar is
//! `-? digit+ ('.' digit+)? (('e'|'E') ('+'|'-')? digit+)?` with at least one
//! of the fraction or the exponent present; a bare `-? digit+` run is an
//! integer lexeme instead.

use vstd::prelude::*;

use crate::text::string_from_chars;

verus! {

// ---------------------------------------------------------------------------
// Character classes
// ---------------------------------------------------------------------------

pub open spec fn is_digit(c: char) -> bool {
    c == '0' || c == '1' || c == '2' || c == '3' || c == '4' || c == '5' || c == '6' || c == '7'
        || c == '8' || c == '9'
}

pub open spec fn digit_val(c: char) -> int {
    if c == '0' {
        0
    } else if c == '1' {
        1
    } else if c == '2' {
        2
    } else if c == '3' {
        3
    } else if c == '4' {
        4
    } else if c == '5' {
        5
    } else if c == '6' {
        6
    } else if c == '7' {
        7
    } else if c == '8' {
        8
    } else {
        9
    }
}

pub open spec fn digit_char(d: int) -> char {
    if d == 0 {
        '0'
    } else if d == 1 {
        '1'
    } else if d == 2 {
        '2'
    } else if d == 3 {
        '3'
    } else if d == 4 {
        '4'
    } else if d == 5 {
        '5'
    } else if d == 6 {
        '6'
    } else if d == 7 {
        '7'
    } else if d == 8 {
        '8'
    } else {
        '9'
    }
}

pub proof fn lemma_digit_char_val(d: int)
    requires
        0 <= d < 10,
    ensures
        is_digit(digit_char(d)),
        digit_val(digit_char(d)) == d,
{
}

/// The characters a numeric lexeme can be made of.
pub open spec fn is_num_char(c: char) -> bool {
    is_digit(c) || c == '-' || c == '+' || c == '.' || c == 'e' || c == 'E'
}

// ---------------------------------------------------------------------------
// Lexeme grammars
// ---------------------------------------------------------------------------

/// End of the run of digits of `t` that starts at `i`.
pub open spec fn digits_end(t: Seq<char>, i: int) -> int
    decreases t.len() - i,
{
    if 0 <= i < t.len() && is_digit(t[i]) {
        digits_end(t, i + 1)
    } else {
        i
    }
}

pub proof fn lemma_digits_end(t: Seq<char>, i: int)
    requires
        0 <= i <= t.len(),
    ensures
        i <= digits_end(t, i) <= t.len(),
        forall|k: int| i <= k < digits_end(t, i) ==> is_digit(#[trigger] t[k]),
        digits_end(t, i) < t.len() ==> !is_digit(t[digits_end(t, i)]),
    decreases t.len() - i,
{
    if i < t.len() && is_digit(t[i]) {
        lemma_digits_end(t, i + 1);
    }
}

/// The digit run from `i` reaches the end of `t` exactly when everything from
/// `i` on is a digit.
pub proof fn lemma_digits_end_all(t: Seq<char>, i: int)
    requires
        0 <= i <= t.len(),
    ensures
        digits_end(t, i) == t.len() <==> (forall|k: int| i <= k < t.len() ==> is_digit(#[trigger] t[k])),
    decreases t.len() - i,
{
    lemma_digits_end(t, i);
    if i < t.len() && is_digit(t[i]) {
        lemma_digits_end_all(t, i + 1);
    }
}

/// 1 if the lexeme opens with a minus sign, else 0.
pub open spec fn sign_off(t: Seq<char>) -> int {
    if t.len() > 0 && t[0] == '-' {
        1
    } else {
        0
    }
}

/// An integer lexeme: an optional minus sign, then one or more digits, and
/// nothing else.
pub open spec fn is_int_lexeme(t: Seq<char>) -> bool {
    t.len() >= sign_off(t) + 1 && digits_end(t, sign_off(t)) == t.len()
}

/// The exponent part of a float lexeme, read from position `i` to the end:
/// `e` or `E`, an optional sign, then one or more digits.
pub open spec fn is_exp_tail(t: Seq<char>, i: int) -> bool {
    &&& 0 <= i < t.len()
    &&& (t[i] == 'e' || t[i] == 'E')
    &&& {
        let j = if i + 1 < t.len() && (t[i + 1] == '+' || t[i + 1] == '-') {
            i + 2
        } else {
            i + 1
        };
        j < t.len() && digits_end(t, j) == t.len()
    }
}

/// A float lexeme read from position `s` to the end: `digit+ ('.' digit+)?
/// exp?`, with the fraction or the exponent (or both) present.
pub open spec fn unsigned_float_at(t: Seq<char>, s: int) -> bool {
    let d1 = digits_end(t, s);
    &&& 0 <= s <= t.len()
    &&& d1 >= s + 1
    &&& d1 < t.len()
    &&& if t[d1] == '.' {
        let d2 = digits_end(t, d1 + 1);
        &&& d2 > d1 + 1
        &&& (d2 == t.len() || is_exp_tail(t, d2))
    } else {
        is_exp_tail(t, d1)
    }
}

/// A float lexeme: an optional minus sign, then an unsigned float lexeme.
pub open spec fn is_float_lexeme(t: Seq<char>) -> bool {
    unsigned_float_at(t, sign_off(t))
}

/// A float lexeme is never an integer lexeme: its digit run stops before the
/// end, at the `.` or at the exponent mark.
pub proof fn lemma_float_not_int(t: Seq<char>)
    requires
        is_float_lexeme(t),
    ensures
        !is_int_lexeme(t),
{
}

/// Every character of a float lexeme is a numeric character, and it opens
/// with a sign or a digit.
pub proof fn lemma_float_lexeme_chars(t: Seq<char>)
    requires
        is_float_lexeme(t),
    ensures
        forall|i: int| 0 <= i < t.len() ==> is_num_char(#[trigger] t[i]),
        t.len() > 0,
        t[0] == '-' || is_digit(t[0]),
{
    let s = sign_off(t);
    let d1 = digits_end(t, s);
    lemma_digits_end(t, s);
    if s == 0 {
        assert(is_digit(t[0]));
    }
    assert forall|i: int| 0 <= i < t.len() implies is_num_char(#[trigger] t[i]) by {
        if i < s {
        } else if i < d1 {
        } else if t[d1] == '.' {
            let d2 = digits_end(t, d1 + 1);
            lemma_digits_end(t, d1 + 1);
            if i == d1 {
            } else if i < d2 {
            } else {
                lemma_exp_tail_chars(t, d2, i);
            }
        } else {
            lemma_exp_tail_chars(t, d1, i);
        }
    }
}

proof fn lemma_exp_tail_chars(t: Seq<char>, i: int, k: int)
    requires
        is_exp_tail(t, i),
        i <= k < t.len(),
    ensures
        is_num_char(t[k]),
{
    let j = if i + 1 < t.len() && (t[i + 1] == '+' || t[i + 1] == '-') {
        i + 2
    } else {
        i + 1
    };
    lemma_digits_end(t, j);
}

// ---------------------------------------------------------------------------
// Integer values
// ---------------------------------------------------------------------------

pub open spec fn digits_val(t: Seq<char>) -> int
    decreases t.len(),
{
    if t.len() == 0 {
        0
    } else {
        digits_val(t.drop_last()) * 10 + digit_val(t.last())
    }
}

/// The value of an integer lexeme.
pub open spec fn int_lexeme_val(t: Seq<char>) -> int {
    if sign_off(t) == 1 {
        -digits_val(t.subrange(1, t.len() as int))
    } else {
        digits_val(t)
    }
}

pub open spec fn in_i64_range(v: int) -> bool {
    -0x8000_0000_0000_0000 <= v <= 0x7fff_ffff_ffff_ffff
}

pub proof fn lemma_digits_val_nonneg(t: Seq<char>)
    ensures
        digits_val(t) >= 0,
    decreases t.len(),
{
    if t.len() > 0 {
        lemma_digits_val_nonneg(t.drop_last());
        assert(digit_val(t.last()) >= 0);
    }
}

/// Appending digits can only grow the (nonnegative) value.
pub proof fn lemma_digits_val_prefix(t: Seq<char>, k: int)
    requires
        0 <= k <= t.len(),
    ensures
        digits_val(t.take(k)) <= digits_val(t),
    decreases t.len(),
{
    if k == t.len() {
        assert(t.take(k) =~= t);
    } else {
        let u = t.drop_last();
        assert(t.take(k) =~= u.take(k));
        lemma_digits_val_prefix(u, k);
        lemma_digits_val_nonneg(u);
        assert(digits_val(u) * 10 >= digits_val(u));
        assert(digit_val(t.last()) >= 0);
    }
}

// ---------------------------------------------------------------------------
// Printing integers
// ---------------------------------------------------------------------------

/// The decimal digits of `n >= 0`, most significant first, no leading zeros
/// (except for `n == 0` itself).
pub open spec fn spec_digits(n: int) -> Seq<char>
    decreases n,
{
    if n < 10 {
        seq![digit_char(n)]
    } else {
        spec_digits(n / 10).push(digit_char(n % 10))
    }
}

/// The canonical decimal spelling of an integer.
pub open spec fn spec_int_chars(n: int) -> Seq<char> {
    if n < 0 {
        seq!['-'] + spec_digits(-n)
    } else {
        spec_digits(n)
    }
}

pub proof fn lemma_spec_digits(n: int)
    requires
        n >= 0,
    ensures
        spec_digits(n).len() >= 1,
        forall|i: int| 0 <= i < spec_digits(n).len() ==> is_digit(#[trigger] spec_digits(n)[i]),
        digits_val(spec_digits(n)) == n,
    decreases n,
{
    if n < 10 {
        lemma_digit_char_val(n);
        let s = spec_digits(n);
        assert(s == seq![digit_char(n)]);
        assert(s.drop_last() =~= Seq::<char>::empty());
        assert(s.last() == digit_char(n));
        assert(digits_val(Seq::<char>::empty()) == 0);
        assert(digits_val(s) == digits_val(s.drop_last()) * 10 + digit_val(s.last()));
    } else {
        lemma_spec_digits(n / 10);
        lemma_digit_char_val(n % 10);
        let s = spec_digits(n / 10);
        let w = s.push(digit_char(n % 10));
        assert(w.drop_last() =~= s);
        assert(w.last() == digit_char(n % 10));
        assert(digits_val(w) == digits_val(s) * 10 + (n % 10));
        assert(n == (n / 10) * 10 + n % 10);
        assert(forall|i: int| 0 <= i < s.len() ==> w[i] == s[i]);
    }
}

pub proof fn lemma_spec_int_chars(n: int)
    ensures
        is_int_lexeme(spec_int_chars(n)),
        int_lexeme_val(spec_int_chars(n)) == n,
        spec_int_chars(n).len() >= 1,
        forall|i: int| 0 <= i < spec_int_chars(n).len() ==> is_num_char(
            #[trigger] spec_int_chars(n)[i],
        ),
        spec_int_chars(n)[0] == '-' || is_digit(spec_int_chars(n)[0]),
{
    if n < 0 {
        lemma_spec_digits(-n);
        let d = spec_digits(-n);
        let t = seq!['-'] + d;
        assert(t[0] == '-');
        assert(forall|i: int| 1 <= i < t.len() ==> t[i] == d[i - 1]);
        assert(sign_off(t) == 1);
        lemma_digits_end_all(t, 1);
        assert(is_int_lexeme(t));
        assert(t.subrange(1, t.len() as int) =~= d);
        assert(int_lexeme_val(t) == -digits_val(d));
    } else {
        lemma_spec_digits(n);
        let t = spec_digits(n);
        assert(is_digit(t[0]));
        assert(t[0] != '-');
        assert(sign_off(t) == 0);
        lemma_digits_end_all(t, 0);
        assert(is_int_lexeme(t));
    }
}

// ---------------------------------------------------------------------------
// The Num type
// ---------------------------------------------------------------------------

/// A numeric value of the document model: an integer, or a floating value
/// kept as its decimal lexeme.
#[derive(Debug, Clone, PartialEq)]
pub enum Num {
    Int(i64),
    Float(String),
}

/// The mathematical value of a `Num`.
pub ghost enum NumV {
    Int(int),
    Float(Seq<char>),
}

impl View for Num {
    type V = NumV;

    open spec fn view(&self) -> NumV {
        match self {
            Num::Int(v) => NumV::Int(*v as int),
            Num::Float(t) => NumV::Float(t@),
        }
    }
}

/// A well-formed number: an integer in 64-bit range, or a valid float lexeme.
pub open spec fn num_wf(n: NumV) -> bool {
    match n {
        NumV::Int(v) => in_i64_range(v),
        NumV::Float(t) => is_float_lexeme(t),
    }
}

/// The canonical spelling of a number: the decimal digits of an integer, the
/// stored lexeme of a floating value.
pub open spec fn spec_num_chars(n: NumV) -> Seq<char> {
    match n {
        NumV::Int(v) => spec_int_chars(v),
        NumV::Float(t) => t,
    }
}

/// The number a lexeme spells: an integer lexeme in range is an integer, a
/// float lexeme is a floating value, anything else is not a number.
pub open spec fn num_of_lexeme(t: Seq<char>) -> Option<NumV> {
    if is_int_lexeme(t) {
        if in_i64_range(int_lexeme_val(t)) {
            Some(NumV::Int(int_lexeme_val(t)))
        } else {
            None
        }
    } else if is_float_lexeme(t) {
        Some(NumV::Float(t))
    } else {
        None
    }
}

/// Whatever a lexeme reads as is well formed.
pub proof fn lemma_num_of_lexeme_wf(t: Seq<char>)
    ensures
        match num_of_lexeme(t) {
            Some(n) => num_wf(n),
            None => true,
        },
{
}

/// Printing a well-formed number and reading the lexeme back gives the same
/// number; the lexeme is nonempty, made of numeric characters only, and opens
/// with a sign or a digit.
pub proof fn lemma_num_round_trip(n: NumV)
    requires
        num_wf(n),
    ensures
        num_of_lexeme(spec_num_chars(n)) == Some(n),
        spec_num_chars(n).len() >= 1,
        forall|i: int| 0 <= i < spec_num_chars(n).len() ==> is_num_char(
            #[trigger] spec_num_chars(n)[i],
        ),
        spec_num_chars(n)[0] == '-' || is_digit(spec_num_chars(n)[0]),
{
    match n {
        NumV::Int(v) => {
            lemma_spec_int_chars(v);
        },
        NumV::Float(t) => {
            lemma_float_not_int(t);
            lemma_float_lexeme_chars(t);
        },
    }
}

// ---------------------------------------------------------------------------
// Executable scanning
// ---------------------------------------------------------------------------

fn is_digit_x(c: char) -> (r: bool)
    ensures
        r == is_digit(c),
{
    c == '0' || c == '1' || c == '2' || c == '3' || c == '4' || c == '5' || c == '6' || c == '7'
        || c == '8' || c == '9'
}

fn digit_val_x(c: char) -> (d: u64)
    ensures
        d as int == digit_val(c),
        d < 10,
{
    if c == '0' {
        0
    } else if c == '1' {
        1
    } else if c == '2' {
        2
    } else if c == '3' {
        3
    } else if c == '4' {
        4
    } else if c == '5' {
        5
    } else if c == '6' {
        6
    } else if c == '7' {
        7
    } else if c == '8' {
        8
    } else {
        9
    }
}

fn digit_char_x(d: u64) -> (c: char)
    requires
        d < 10,
    ensures
        c == digit_char(d as int),
{
    if d == 0 {
        '0'
    } else if d == 1 {
        '1'
    } else if d == 2 {
        '2'
    } else if d == 3 {
        '3'
    } else if d == 4 {
        '4'
    } else if d == 5 {
        '5'
    } else if d == 6 {
        '6'
    } else if d == 7 {
        '7'
    } else if d == 8 {
        '8'
    } else {
        '9'
    }
}

pub(crate) fn digits_end_x(t: &Vec<char>, i: usize) -> (r: usize)
    requires
        i <= t.len(),
    ensures
        r as int == digits_end(t@, i as int),
        i <= r <= t.len(),
{
    let n = t.len();
    let mut j = i;
    while j < n && is_digit_x(t[j])
        invariant
            i <= j <= n,
            n == t.len(),
            digits_end(t@, i as int) == digits_end(t@, j as int),
        decreases n - j,
    {
        j = j + 1;
    }
    proof {
        lemma_digits_end(t@, j as int);
    }
    j
}

fn exp_tail_x(t: &Vec<char>, i: usize) -> (r: bool)
    requires
        i <= t.len(),
    ensures
        r == is_exp_tail(t@, i as int),
{
    let n = t.len();
    if i >= n {
        return false;
    }
    let c = t[i];
    if !(c == 'e' || c == 'E') {
        return false;
    }
    let j: usize = if i + 1 < n && (t[i + 1] == '+' || t[i + 1] == '-') {
        i + 2
    } else {
        i + 1
    };
    if j >= n {
        return false;
    }
    let de = digits_end_x(t, j);
    de == n
}

/// The value of the digit run `t[s..]`, bounded by `cap`; `None` when the
/// value exceeds `cap`.
fn digits_value_u64(t: &Vec<char>, s: usize, cap: u64) -> (r: Option<u64>)
    requires
        s <= t.len(),
        forall|k: int| s <= k < t@.len() ==> is_digit(#[trigger] t@[k]),
    ensures
        match r {
            Some(v) => v as int == digits_val(t@.subrange(s as int, t@.len() as int)) && v <= cap,
            None => digits_val(t@.subrange(s as int, t@.len() as int)) > cap,
        },
{
    let n = t.len();
    let mut acc: u64 = 0;
    let mut j = s;
    proof {
        assert(t@.subrange(s as int, s as int) =~= Seq::<char>::empty());
    }
    while j < n
        invariant
            s <= j <= n,
            n == t.len(),
            forall|k: int| s <= k < t@.len() ==> is_digit(#[trigger] t@[k]),
            acc as int == digits_val(t@.subrange(s as int, j as int)),
            acc <= cap,
        decreases n - j,
    {
        let d = digit_val_x(t[j]);
        proof {
            let pre = t@.subrange(s as int, j as int);
            let post = t@.subrange(s as int, j + 1 as int);
            assert(post.drop_last() =~= pre);
            assert(post.last() == t@[j as int]);
            assert(digits_val(post) == digits_val(pre) * 10 + digit_val(t@[j as int]));
        }
        if d > cap || acc > (cap - d) / 10 {
            proof {
                let q = (cap - d) / 10;
                let whole = t@.subrange(s as int, t@.len() as int);
                let post = t@.subrange(s as int, j + 1 as int);
                assert(whole.take(j + 1 - s) =~= post);
                lemma_digits_val_prefix(whole, j + 1 - s);
                if d <= cap {
                    assert(acc >= q + 1);
                    assert((cap - d) == 10 * q + (cap - d) % 10);
                    assert((cap - d) % 10 < 10);
                    assert(acc as int * 10 >= (q + 1) * 10) by (nonlinear_arith)
                        requires
                            acc >= q + 1,
                    ;
                    assert(digits_val(post) > cap);
                } else {
                    lemma_digits_val_nonneg(t@.subrange(s as int, j as int));
                    assert(digits_val(post) > cap);
                }
            }
            return None;
        }
        proof {
            let q = (cap - d) / 10;
            assert((cap - d) == 10 * q + (cap - d) % 10);
            assert(acc as int * 10 <= q * 10) by (nonlinear_arith)
                requires
                    acc <= q,
            ;
            assert(acc as int * 10 + d <= cap);
        }
        acc = acc * 10 + d;
        j = j + 1;
    }
    proof {
        assert(t@.subrange(s as int, n as int) =~= t@.subrange(s as int, t@.len() as int));
    }
    Some(acc)
}

/// What a scan of one lexeme found.
pub(crate) enum NumScan {
    /// An integer lexeme whose value fits in 64 bits.
    IntVal(i64),
    /// An integer lexeme whose value does not fit in 64 bits.
    IntBig,
    /// A float lexeme.
    FloatTok,
    /// Not a numeric lexeme.
    NotNum,
}

/// Classify one whole lexeme: integer, oversized integer, float, or not a
/// number at all.
pub(crate) fn scan_num(t: &Vec<char>) -> (r: NumScan)
    ensures
        match r {
            NumScan::IntVal(v) => is_int_lexeme(t@) && in_i64_range(int_lexeme_val(t@)) && v as int
                == int_lexeme_val(t@),
            NumScan::IntBig => is_int_lexeme(t@) && !in_i64_range(int_lexeme_val(t@)),
            NumScan::FloatTok => !is_int_lexeme(t@) && is_float_lexeme(t@),
            NumScan::NotNum => !is_int_lexeme(t@) && !is_float_lexeme(t@),
        },
{
    let n = t.len();
    let neg = n > 0 && t[0] == '-';
    let s: usize = if neg {
        1
    } else {
        0
    };
    proof {
        assert(s as int == sign_off(t@));
    }
    if n == s {
        proof {
            lemma_digits_end(t@, s as int);
        }
        return NumScan::NotNum;
    }
    let d1 = digits_end_x(t, s);
    if d1 == s {
        return NumScan::NotNum;
    }
    if d1 == n {
        // an integer lexeme; compute its magnitude
        let cap: u64 = if neg {
            0x8000_0000_0000_0000
        } else {
            0x7fff_ffff_ffff_ffff
        };
        proof {
            lemma_digits_end(t@, s as int);
        }
        match digits_value_u64(t, s, cap) {
            Some(mag) => {
                proof {
                    if neg {
                        assert(t@.subrange(1, t@.len() as int) == t@.subrange(
                            s as int,
                            t@.len() as int,
                        ));
                    } else {
                        assert(t@.subrange(0, t@.len() as int) =~= t@);
                        lemma_digits_val_prefix(t@, n as int);
                    }
                }
                if neg {
                    if mag == 0x8000_0000_0000_0000 {
                        NumScan::IntVal(-0x7fff_ffff_ffff_ffff - 1)
                    } else {
                        NumScan::IntVal(-(mag as i64))
                    }
                } else {
                    NumScan::IntVal(mag as i64)
                }
            },
            None => {
                proof {
                    if neg {
                        assert(t@.subrange(1, t@.len() as int) == t@.subrange(
                            s as int,
                            t@.len() as int,
                        ));
                    } else {
                        assert(t@.subrange(0, t@.len() as int) =~= t@);
                    }
                }
                NumScan::IntBig
            },
        }
    } else if t[d1] == '.' {
        let d2 = digits_end_x(t, d1 + 1);
        if d2 == d1 + 1 {
            NumScan::NotNum
        } else if d2 == n {
            NumScan::FloatTok
        } else if exp_tail_x(t, d2) {
            NumScan::FloatTok
        } else {
            NumScan::NotNum
        }
    } else {
        if exp_tail_x(t, d1) {
            NumScan::FloatTok
        } else {
            NumScan::NotNum
        }
    }
}

/// Read a whole lexeme as a number, or nothing if it is not one.
pub(crate) fn num_from_chars(t: &Vec<char>) -> (r: Option<Num>)
    ensures
        match r {
            Some(m) => num_of_lexeme(t@) == Some(m@) && num_wf(m@),
            None => num_of_lexeme(t@) is None,
        },
{
    match scan_num(t) {
        NumScan::IntVal(v) => Some(Num::Int(v)),
        NumScan::FloatTok => Some(Num::Float(string_from_chars(t))),
        NumScan::IntBig => None,
        NumScan::NotNum => None,
    }
}

// ---------------------------------------------------------------------------
// Executable printing
// ---------------------------------------------------------------------------

pub(crate) fn push_digits(out: &mut Vec<char>, n: u64)
    ensures
        final(out)@ == old(out)@ + spec_digits(n as int),
    decreases n,
{
    if n < 10 {
        out.push(digit_char_x(n));
        proof {
            assert(final(out)@ =~= old(out)@ + spec_digits(n as int));
        }
    } else {
        push_digits(out, n / 10);
        out.push(digit_char_x(n % 10));
        proof {
            assert((n / 10) as int == n as int / 10);
            assert((n % 10) as int == n as int % 10);
            assert(final(out)@ =~= old(out)@ + spec_digits(n as int));
        }
    }
}

pub(crate) fn push_int_chars(out: &mut Vec<char>, v: i64)
    ensures
        final(out)@ == old(out)@ + spec_int_chars(v as int),
{
    if v < 0 {
        out.push('-');
        let mag: u64 = if v == -0x7fff_ffff_ffff_ffff - 1 {
            0x8000_0000_0000_0000
        } else {
            (-v) as u64
        };
        proof {
            assert(mag as int == -(v as int));
        }
        push_digits(out, mag);
        proof {
            assert(final(out)@ =~= old(out)@ + spec_int_chars(v as int));
        }
    } else {
        push_digits(out, v as u64);
    }
}

impl Num {
    /// Append the canonical spelling of this number.
    pub(crate) fn push_chars(&self, out: &mut Vec<char>)
        ensures
            final(out)@ == old(out)@ + spec_num_chars(self@),
    {
        match self {
            Num::Int(v) => push_int_chars(out, *v),
            Num::Float(t) => {
                let cs = crate::text::chars_of(t.as_str());
                let mut k: usize = 0;
                let n = cs.len();
                while k < n
                    invariant
                        k <= n,
                        n == cs.len(),
                        cs@ == t@,
                        out@ == old(out)@ + cs@.subrange(0, k as int),
                    decreases n - k,
                {
                    out.push(cs[k]);
                    proof {
                        assert(out@ =~= old(out)@ + cs@.subrange(0, k + 1 as int));
                    }
                    k = k + 1;
                }
                proof {
                    assert(cs@.subrange(0, n as int) =~= cs@);
                }
            },
        }
    }
}

} // verus!
