//! Plain text: numbers, padding, lists and the order of labels.

use crate::order::Ordered;
use vstd::prelude::*;
use vstd::string::*;

verus! {

/// The character of one decimal digit.
pub open spec fn digit(d: nat) -> char {
    (48 + d) as char
}

/// A number in decimal, without leading zeroes.
pub open spec fn decimal(n: nat) -> Seq<char>
    decreases n,
{
    if n < 10 {
        seq![digit(n)]
    } else {
        decimal(n / 10).push(digit(n % 10))
    }
}

/// Spaces in front of `s` until it is `width` characters wide.
pub open spec fn pad_left(s: Seq<char>, width: nat) -> Seq<char> {
    if s.len() >= width {
        s
    } else {
        Seq::new((width - s.len()) as nat, |i: int| ' ') + s
    }
}

/// The texts one after the other with `sep` between them.
pub open spec fn joined(texts: Seq<Seq<char>>, sep: Seq<char>) -> Seq<char>
    decreases texts.len(),
{
    if texts.len() == 0 {
        seq![]
    } else if texts.len() == 1 {
        texts[0]
    } else {
        joined(texts.drop_last(), sep) + sep + texts.last()
    }
}

/// The views of a list of strings.
pub open spec fn views(v: Seq<String>) -> Seq<Seq<char>> {
    v.map_values(|s: String| s@)
}

/// Lexicographic order by code point, which for UTF-8 is the order of the bytes.
pub open spec fn lex_le(a: Seq<char>, b: Seq<char>) -> bool
    decreases a.len(),
{
    if a.len() == 0 {
        true
    } else if b.len() == 0 {
        false
    } else if a[0] == b[0] {
        lex_le(a.drop_first(), b.drop_first())
    } else {
        a[0] < b[0]
    }
}

proof fn lemma_lex_total(a: Seq<char>, b: Seq<char>)
    ensures
        lex_le(a, b) || lex_le(b, a),
    decreases a.len(),
{
    if a.len() > 0 && b.len() > 0 && a[0] == b[0] {
        lemma_lex_total(a.drop_first(), b.drop_first());
    }
}

proof fn lemma_lex_transitive(a: Seq<char>, b: Seq<char>, c: Seq<char>)
    requires
        lex_le(a, b),
        lex_le(b, c),
    ensures
        lex_le(a, c),
    decreases a.len(),
{
    if a.len() > 0 && b.len() > 0 && c.len() > 0 && a[0] == b[0] && b[0] == c[0] {
        lemma_lex_transitive(a.drop_first(), b.drop_first(), c.drop_first());
    }
}

impl Ordered for String {
    open spec fn le(self, other: String) -> bool {
        lex_le(self@, other@)
    }

    proof fn lemma_total(a: String, b: String) {
        lemma_lex_total(a@, b@);
    }

    proof fn lemma_transitive(a: String, b: String, c: String) {
        lemma_lex_transitive(a@, b@, c@);
    }

    fn is_le(&self, other: &String) -> (r: bool) {
        let a: &str = self.as_str();
        let b: &str = other.as_str();
        let a_len: usize = a.unicode_len();
        let b_len: usize = b.unicode_len();
        let mut i: usize = 0;
        proof {
            assert(self@.skip(0) =~= self@);
            assert(other@.skip(0) =~= other@);
        }
        while i < a_len && i < b_len
            invariant
                a@ == self@,
                b@ == other@,
                a_len == self@.len(),
                b_len == other@.len(),
                i <= a_len,
                i <= b_len,
                lex_le(self@, other@) == lex_le(self@.skip(i as int), other@.skip(i as int)),
            decreases a_len - i,
        {
            let c: char = a.get_char(i);
            let d: char = b.get_char(i);
            if c != d {
                return c < d;
            }
            proof {
                assert(self@.skip(i as int).drop_first() =~= self@.skip(i + 1));
                assert(other@.skip(i as int).drop_first() =~= other@.skip(i + 1));
            }
            i = i + 1;
        }
        i == a_len
    }
}

/// Writes a digit.
fn digit_text(d: u64) -> (r: &'static str)
    requires
        d < 10,
    ensures
        r@ == seq![digit(d as nat)],
{
    proof {
        reveal_strlit("0");
        reveal_strlit("1");
        reveal_strlit("2");
        reveal_strlit("3");
        reveal_strlit("4");
        reveal_strlit("5");
        reveal_strlit("6");
        reveal_strlit("7");
        reveal_strlit("8");
        reveal_strlit("9");
    }
    match d {
        0 => "0",
        1 => "1",
        2 => "2",
        3 => "3",
        4 => "4",
        5 => "5",
        6 => "6",
        7 => "7",
        8 => "8",
        _ => "9",
    }
}

/// Writes a number in decimal.
pub fn number(n: u64) -> (r: String)
    ensures
        r@ == decimal(n as nat),
    decreases n,
{
    if n < 10 {
        digit_text(n).to_owned()
    } else {
        let mut r: String = number(n / 10);
        r.append(digit_text(n % 10));
        r
    }
}

/// Pads a text on the left.
pub fn padded(s: &str, width: usize) -> (r: String)
    ensures
        r@ == pad_left(s@, width as nat),
{
    let len: usize = s.unicode_len();
    let mut r: String = String::new();
    let mut i: usize = len;
    proof {
        reveal_strlit(" ");
    }
    while i < width
        invariant
            len == s@.len(),
            len <= i,
            i <= width || i == len,
            r@.len() == i - len,
            forall|k: int| 0 <= k < r@.len() ==> #[trigger] r@[k] == ' ',
            " "@ == seq![' '],
        decreases width - i,
    {
        r.append(" ");
        i = i + 1;
    }
    r.append(s);
    proof {
        assert(r@ =~= pad_left(s@, width as nat));
    }
    r
}

/// Joins texts.
pub fn join(texts: &Vec<String>, sep: &str) -> (r: String)
    ensures
        r@ == joined(views(texts@), sep@),
{
    let mut r: String = String::new();
    let mut i: usize = 0;
    proof {
        assert(views(texts@).take(0) =~= Seq::empty());
    }
    while i < texts.len()
        invariant
            i <= texts@.len(),
            r@ == joined(views(texts@).take(i as int), sep@),
        decreases texts@.len() - i,
    {
        let ghost all = views(texts@);
        proof {
            assert(all.take(i + 1).drop_last() =~= all.take(i as int));
            assert(all.take(i + 1).last() == texts@[i as int]@);
        }
        if i > 0 {
            r.append(sep);
        } else {
            proof {
                assert(all.take(1)[0] == texts@[0]@);
            }
        }
        r.append(texts[i].as_str());
        proof {
            assert(r@ =~= joined(all.take(i + 1), sep@));
        }
        i = i + 1;
    }
    proof {
        assert(views(texts@).take(i as int) =~= views(texts@));
    }
    r
}

/// The number that a row of digits stands for.
pub open spec fn value(s: Seq<char>) -> int
    decreases s.len(),
{
    if s.len() == 0 {
        0
    } else {
        10 * value(s.drop_last()) + (s.last() as int - '0' as int)
    }
}

/// A number in decimal is a row of digits that stands for the number, and it starts
/// with a zero only if that is all.
pub proof fn law_decimals_can_be_read(n: nat)
    ensures
        value(decimal(n)) == n,
        decimal(n).len() > 0,
        decimal(n)[0] == '0' ==> n == 0,
        forall|i: int| 0 <= i < decimal(n).len() ==> '0' <= #[trigger] decimal(n)[i] <= '9',
    decreases n,
{
    if n < 10 {
        assert(decimal(n).drop_last() =~= Seq::empty());
        assert(value(Seq::empty()) == 0);
    } else {
        law_decimals_can_be_read(n / 10);
        assert(decimal(n).drop_last() =~= decimal(n / 10));
    }
}

/// A padded text ends with the text, has only spaces before it, and is as wide as
/// asked or as the text, whichever is more.
pub proof fn law_padding_is_space(s: Seq<char>, width: nat)
    ensures
        ({
            let p = pad_left(s, width);
            let room = p.len() - s.len();
            &&& p.len() == (if s.len() < width {
                width
            } else {
                s.len()
            })
            &&& p.skip(room) == s
            &&& forall|i: int| 0 <= i < room ==> #[trigger] p[i] == ' '
        }),
{
    let p = pad_left(s, width);
    assert(p.skip(p.len() - s.len()) =~= s);
}

/// Joined texts start with the first; what follows it is the separator and the rest
/// joined.
pub proof fn law_joined_texts(first: Seq<char>, rest: Seq<Seq<char>>, sep: Seq<char>)
    ensures
        joined(seq![first], sep) == first,
        joined(Seq::empty(), sep).len() == 0,
        rest.len() > 0 ==> joined(seq![first] + rest, sep) == first + sep + joined(rest, sep),
    decreases rest.len(),
{
    if rest.len() == 1 {
        let all = seq![first] + rest;
        assert(all.drop_last() =~= seq![first]);
        assert(all.last() == rest[0]);
        assert(joined(seq![first], sep) == first);
        assert(joined(rest, sep) == rest[0]);
        assert(joined(all, sep) =~= first + sep + rest[0]);
    } else if rest.len() > 1 {
        let all = seq![first] + rest;
        law_joined_texts(first, rest.drop_last(), sep);
        assert(all.drop_last() =~= seq![first] + rest.drop_last());
        assert(all.last() == rest.last());
        assert(joined(all, sep) =~= first + sep + joined(rest, sep));
    }
}

/// One text stands before another if it is a beginning of it, or has the lower
/// character where the two first differ.
pub proof fn law_labels_are_ordered_by_characters(a: Seq<char>, b: Seq<char>)
    ensures
        lex_le(a, b) <==> a.is_prefix_of(b) || exists|k: int|
            #![trigger a[k]]
            0 <= k < a.len() && k < b.len() && a[k] < b[k] && a.take(k) == b.take(k),
    decreases a.len(),
{
    let differ = |x: Seq<char>, y: Seq<char>, k: int|
        0 <= k < x.len() && k < y.len() && x[k] < y[k] && x.take(k) == y.take(k);
    if a.len() > 0 && b.len() > 0 && a[0] == b[0] {
        let (c, d) = (a.drop_first(), b.drop_first());
        law_labels_are_ordered_by_characters(c, d);
        if c.is_prefix_of(d) {
            assert(a =~= b.take(a.len() as int)) by {
                assert(c =~= d.take(c.len() as int));
                assert forall|i: int| 0 <= i < a.len() implies a[i] == b[i] by {
                    if i > 0 {
                        assert(c[i - 1] == d[i - 1]);
                    }
                }
            }
        }
        if a.is_prefix_of(b) {
            assert forall|i: int| 0 <= i < c.len() implies c[i] == d[i] by {
                assert(a[i + 1] == b[i + 1]);
            }
            assert(c =~= d.take(c.len() as int));
        }
        assert forall|k: int| #[trigger] differ(c, d, k) implies differ(a, b, k + 1) by {
            assert forall|i: int| 0 <= i < k + 1 implies #[trigger] a[i] == b[i] by {
                if i > 0 {
                    assert(c.take(k)[i - 1] == d.take(k)[i - 1]);
                }
            }
            assert(a.take(k + 1) =~= b.take(k + 1));
        }
        assert forall|k: int| #[trigger] differ(a, b, k) implies k > 0 && differ(c, d, k - 1) by {
            assert forall|i: int| 0 <= i < k - 1 implies #[trigger] c[i] == d[i] by {
                assert(a.take(k)[i + 1] == b.take(k)[i + 1]);
            }
            assert(c.take(k - 1) =~= d.take(k - 1));
        }
        if exists|k: int|
            #![trigger c[k]]
            0 <= k < c.len() && k < d.len() && c[k] < d[k] && c.take(k) == d.take(k) {
            let k = choose|k: int|
                #![trigger c[k]]
                0 <= k < c.len() && k < d.len() && c[k] < d[k] && c.take(k) == d.take(k);
            assert(differ(c, d, k));
            assert(a[k + 1] < b[k + 1]);
        }
        if exists|k: int|
            #![trigger a[k]]
            0 <= k < a.len() && k < b.len() && a[k] < b[k] && a.take(k) == b.take(k) {
            let k = choose|k: int|
                #![trigger a[k]]
                0 <= k < a.len() && k < b.len() && a[k] < b[k] && a.take(k) == b.take(k);
            assert(differ(a, b, k));
            assert(c[k - 1] < d[k - 1]);
        }
    } else if a.len() > 0 && b.len() > 0 {
        if a[0] < b[0] {
            assert(a.take(0) =~= b.take(0));
        }
        assert forall|k: int|
            0 <= k < a.len() && k < b.len() && #[trigger] a[k] < b[k] && a.take(k) == b.take(
                k,
            ) implies k == 0 by {
            if k > 0 {
                assert(a.take(k)[0] == b.take(k)[0]);
            }
        }
    } else if a.len() == 0 {
        assert(a =~= b.take(0));
    }
}

} // verus!
