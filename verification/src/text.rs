//! The order of names and of identifier lists, and identifiers written as
//! decimal text.
use vstd::prelude::*;
use vstd::string::*;

verus! {

/// How one value stands to another in a strict total order.
#[derive(Clone, Copy, Debug, PartialEq, Eq, Structural)]
pub enum Placement {
    Before,
    Same,
    After,
}

/// Whether `a` and `b` agree on their first `k` items and `a` is the smaller
/// from there: it ends at `k` while `b` goes on, or holds the smaller item at
/// position `k`.
pub open spec fn gap(a: Seq<int>, b: Seq<int>, k: int) -> bool {
    &&& 0 <= k <= a.len()
    &&& k < b.len()
    &&& forall|j: int| 0 <= j < k ==> a[j] == b[j]
    &&& (k < a.len() ==> a[k] < b[k])
}

/// The lexicographic order of integer sequences, strict.
pub open spec fn lex_lt(a: Seq<int>, b: Seq<int>) -> bool {
    exists|k: int| #[trigger] gap(a, b, k)
}

/// The code points of a text.
pub open spec fn codes(s: Seq<char>) -> Seq<int> {
    Seq::new(s.len(), |i: int| s[i] as int)
}

/// The numbers of a list of identifiers.
pub open spec fn numbers(s: Seq<u64>) -> Seq<int> {
    Seq::new(s.len(), |i: int| s[i] as int)
}

/// The order of texts: lexicographic by code point, which is the order of
/// their UTF-8 encodings.
pub open spec fn text_lt(a: Seq<char>, b: Seq<char>) -> bool {
    lex_lt(codes(a), codes(b))
}

/// The order of identifier lists: lexicographic.
pub open spec fn ids_lt(a: Seq<u64>, b: Seq<u64>) -> bool {
    lex_lt(numbers(a), numbers(b))
}

/// A sequence that comes before another differs from it and does not come
/// after it.
pub proof fn lemma_lex_asymmetric(a: Seq<int>, b: Seq<int>)
    requires
        lex_lt(a, b),
    ensures
        a != b,
        !lex_lt(b, a),
{
    let k = choose|k: int| #[trigger] gap(a, b, k);
    assert forall|m: int| !#[trigger] gap(b, a, m) by {
        if gap(b, a, m) {
            if m < k {
                assert(a[m] == b[m]);
            } else if k < m {
                assert(b[k] == a[k]);
            }
        }
    }
    if a == b {
        assert(k < a.len());
    }
}

/// The lexicographic order is transitive.
pub proof fn lemma_lex_transitive(a: Seq<int>, b: Seq<int>, c: Seq<int>)
    requires
        lex_lt(a, b),
        lex_lt(b, c),
    ensures
        lex_lt(a, c),
{
    let k1 = choose|k: int| #[trigger] gap(a, b, k);
    let k2 = choose|k: int| #[trigger] gap(b, c, k);
    let k = if k1 <= k2 { k1 } else { k2 };
    assert forall|j: int| 0 <= j < k implies a[j] == c[j] by {
        assert(a[j] == b[j]);
        assert(b[j] == c[j]);
    }
    if k1 < k2 {
        assert(b[k1] == c[k1]);
    }
    assert(gap(a, c, k));
}

/// Places `a` against `b` in the order of texts.
pub fn compare_text(a: &str, b: &str) -> (r: Placement)
    ensures
        r is Before <==> text_lt(a@, b@),
        r is Same <==> a@ == b@,
        r is After <==> text_lt(b@, a@),
{
    let la: usize = a.unicode_len();
    let lb: usize = b.unicode_len();
    let mut i: usize = 0;
    let mut r: Placement = Placement::Same;
    while i < la && i < lb && r == Placement::Same
        invariant
            la == a@.len(),
            lb == b@.len(),
            i <= la,
            i <= lb,
            r is Same ==> forall|j: int| 0 <= j < i ==> a@[j] == b@[j],
            r is Before ==> gap(codes(a@), codes(b@), i as int),
            r is After ==> gap(codes(b@), codes(a@), i as int),
        decreases (la - i) + (if r is Same { 1int } else { 0int }),
    {
        let ca: char = a.get_char(i);
        let cb: char = b.get_char(i);
        if ca < cb {
            r = Placement::Before;
        } else if cb < ca {
            r = Placement::After;
        } else {
            assert(ca as u32 == cb as u32);
            assert(ca == cb);
            i = i + 1;
        }
    }
    if r == Placement::Same {
        if la < lb {
            r = Placement::Before;
            assert(gap(codes(a@), codes(b@), i as int));
        } else if lb < la {
            r = Placement::After;
            assert(gap(codes(b@), codes(a@), i as int));
        } else {
            assert(a@ =~= b@);
        }
    }
    proof {
        if r is Before {
            lemma_lex_asymmetric(codes(a@), codes(b@));
        } else if r is After {
            lemma_lex_asymmetric(codes(b@), codes(a@));
        } else {
            if lex_lt(codes(a@), codes(b@)) {
                lemma_lex_asymmetric(codes(a@), codes(b@));
            }
        }
    }
    r
}

/// Places `a` against `b` in the order of identifier lists.
pub fn compare_ids(a: &Vec<u64>, b: &Vec<u64>) -> (r: Placement)
    ensures
        r is Before <==> ids_lt(a@, b@),
        r is Same <==> a@ == b@,
        r is After <==> ids_lt(b@, a@),
{
    let la: usize = a.len();
    let lb: usize = b.len();
    let mut i: usize = 0;
    let mut r: Placement = Placement::Same;
    while i < la && i < lb && r == Placement::Same
        invariant
            la == a@.len(),
            lb == b@.len(),
            i <= la,
            i <= lb,
            r is Same ==> forall|j: int| 0 <= j < i ==> a@[j] == b@[j],
            r is Before ==> gap(numbers(a@), numbers(b@), i as int),
            r is After ==> gap(numbers(b@), numbers(a@), i as int),
        decreases (la - i) + (if r is Same { 1int } else { 0int }),
    {
        let x: u64 = a[i];
        let y: u64 = b[i];
        if x < y {
            r = Placement::Before;
        } else if y < x {
            r = Placement::After;
        } else {
            i = i + 1;
        }
    }
    if r == Placement::Same {
        if la < lb {
            r = Placement::Before;
            assert(gap(numbers(a@), numbers(b@), i as int));
        } else if lb < la {
            r = Placement::After;
            assert(gap(numbers(b@), numbers(a@), i as int));
        } else {
            assert(a@ =~= b@);
        }
    }
    proof {
        if r is Before {
            lemma_lex_asymmetric(numbers(a@), numbers(b@));
        } else if r is After {
            lemma_lex_asymmetric(numbers(b@), numbers(a@));
        } else {
            if lex_lt(numbers(a@), numbers(b@)) {
                lemma_lex_asymmetric(numbers(a@), numbers(b@));
            }
        }
    }
    r
}

/// The character of a decimal digit.
pub open spec fn digit(d: int) -> char {
    if d == 0 {
        '0'
    } else if d == 1 {
        '1'
    } else if d == 2 {
        '2'
    } else if d == 3 {
        '3'
    } else if d == 4 {
        '4'
    } else if d == 5 {
        '5'
    } else if d == 6 {
        '6'
    } else if d == 7 {
        '7'
    } else if d == 8 {
        '8'
    } else {
        '9'
    }
}

/// The decimal digits of a natural number, most significant first, without
/// leading zeros.
pub open spec fn digits(n: nat) -> Seq<char>
    decreases n,
{
    if n < 10 {
        seq![digit(n as int)]
    } else {
        digits(n / 10).push(digit((n % 10) as int))
    }
}

/// An integer in decimal, with a minus sign in front of a negative one.
pub open spec fn decimal(i: int) -> Seq<char> {
    if i < 0 {
        seq!['-'] + digits((-i) as nat)
    } else {
        digits(i as nat)
    }
}

/// The value of a digit character, and -1 for any other character.
pub open spec fn digit_value(c: char) -> int {
    if c == '0' {
        0
    } else if c == '1' {
        1
    } else if c == '2' {
        2
    } else if c == '3' {
        3
    } else if c == '4' {
        4
    } else if c == '5' {
        5
    } else if c == '6' {
        6
    } else if c == '7' {
        7
    } else if c == '8' {
        8
    } else if c == '9' {
        9
    } else {
        -1
    }
}

/// The number that a sequence of digits writes.
pub open spec fn number_of(s: Seq<char>) -> int
    decreases s.len(),
{
    if s.len() == 0 {
        0
    } else {
        number_of(s.drop_last()) * 10 + digit_value(s.last())
    }
}

/// The digits of a number start with a digit, and write that number.
pub proof fn lemma_digits(n: nat)
    ensures
        digits(n).len() >= 1,
        digit_value(digits(n)[0]) >= 0,
        number_of(digits(n)) == n,
    decreases n,
{
    if n < 10 {
        let s = digits(n);
        assert(s.drop_last() =~= Seq::<char>::empty());
        assert(number_of(s.drop_last()) == 0);
    } else {
        lemma_digits(n / 10);
        let s = digits(n);
        assert(s.drop_last() =~= digits(n / 10));
        assert(s.last() == digit((n % 10) as int));
        assert(s[0] == digits(n / 10)[0]);
    }
}

/// Two integers with the same decimal text are the same integer.
pub proof fn lemma_decimal_injective(a: int, b: int)
    requires
        decimal(a) == decimal(b),
    ensures
        a == b,
{
    let na: nat = if a < 0 { (-a) as nat } else { a as nat };
    let nb: nat = if b < 0 { (-b) as nat } else { b as nat };
    lemma_digits(na);
    lemma_digits(nb);
    if a < 0 {
        assert(decimal(a)[0] == '-');
        assert(decimal(a).skip(1) =~= digits(na));
    }
    if b < 0 {
        assert(decimal(b)[0] == '-');
        assert(decimal(b).skip(1) =~= digits(nb));
    }
}

fn digit_text(d: u64) -> (s: &'static str)
    requires
        d < 10,
    ensures
        s@ == seq![digit(d as int)],
{
    proof {
        reveal_strlit("0");
        reveal_strlit("1");
        reveal_strlit("2");
        reveal_strlit("3");
        reveal_strlit("4");
        reveal_strlit("5");
        reveal_strlit("6");
        reveal_strlit("7");
        reveal_strlit("8");
        reveal_strlit("9");
    }
    let s: &'static str = if d == 0 {
        "0"
    } else if d == 1 {
        "1"
    } else if d == 2 {
        "2"
    } else if d == 3 {
        "3"
    } else if d == 4 {
        "4"
    } else if d == 5 {
        "5"
    } else if d == 6 {
        "6"
    } else if d == 7 {
        "7"
    } else if d == 8 {
        "8"
    } else {
        "9"
    };
    assert(s@ =~= seq![digit(d as int)]);
    s
}

fn digits_string(n: u64) -> (s: String)
    ensures
        s@ == digits(n as nat),
    decreases n,
{
    if n < 10 {
        String::from_str(digit_text(n))
    } else {
        let mut s: String = digits_string(n / 10);
        s.append(digit_text(n % 10));
        assert(s@ =~= digits(n as nat));
        s
    }
}

/// Writes an integer in decimal.
pub fn decimal_string(i: i64) -> (s: String)
    ensures
        s@ == decimal(i as int),
{
    if i < 0 {
        let magnitude: u64 = ((-(i + 1)) as u64) + 1;
        proof {
            reveal_strlit("-");
        }
        let mut s: String = String::from_str("-");
        let tail: String = digits_string(magnitude);
        s.append(tail.as_str());
        assert(s@ =~= decimal(i as int));
        s
    } else {
        digits_string(i as u64)
    }
}

} // verus!
