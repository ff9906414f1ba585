//! Net names: ASCII case folding, comparison and the fixed spellings that
//! carry electrical meaning.

use vstd::prelude::*;

verus! {

/// One character with `'A'..='Z'` folded to `'a'..='z'`; every other
/// character is itself.
pub open spec fn ascii_lower_char(c: char) -> char {
    if 'A' <= c && c <= 'Z' {
        (c as u32 + 32) as char
    } else {
        c
    }
}

/// A name with every ASCII letter in lower case.
pub open spec fn ascii_lower(s: Seq<char>) -> Seq<char> {
    s.map_values(|c: char| ascii_lower_char(c))
}

/// `str::to_ascii_lowercase`: a copy of the string in which the ASCII letters
/// `A` to `Z` are replaced by `a` to `z` and every other character is kept.
pub assume_specification[ str::to_ascii_lowercase ](s: &str) -> (res: String)
    ensures
        res@ == ascii_lower(s@),
;

/// Whether two strings hold the same characters.
pub fn str_eq(a: &str, b: &str) -> (r: bool)
    ensures
        r == (a@ == b@),
{
    let n: usize = a.unicode_len();
    if n != b.unicode_len() {
        return false;
    }
    let mut i: usize = 0;
    while i < n
        invariant
            i <= n,
            n == a@.len(),
            n == b@.len(),
            forall|j: int| 0 <= j < i ==> a@[j] == b@[j],
        decreases n - i,
    {
        if a.get_char(i) != b.get_char(i) {
            return false;
        }
        i = i + 1;
    }
    assert(a@ =~= b@);
    true
}

/// Lexicographic order on character sequences.
pub open spec fn lex_lt(a: Seq<char>, b: Seq<char>) -> bool
    decreases a.len(),
{
    if b.len() == 0 {
        false
    } else if a.len() == 0 {
        true
    } else if a[0] == b[0] {
        lex_lt(a.skip(1), b.skip(1))
    } else {
        a[0] < b[0]
    }
}

/// The order is total: two different names are comparable.
pub proof fn lex_total(a: Seq<char>, b: Seq<char>)
    ensures
        a == b || lex_lt(a, b) || lex_lt(b, a),
    decreases a.len(),
{
    if a.len() == 0 || b.len() == 0 {
        if a.len() == 0 && b.len() == 0 {
            assert(a =~= b);
        }
    } else if a[0] == b[0] {
        lex_total(a.skip(1), b.skip(1));
        if a.skip(1) == b.skip(1) {
            assert forall|i: int| 0 <= i < a.len() implies a[i] == b[i] by {
                if i > 0 {
                    assert(a.skip(1)[i - 1] == b.skip(1)[i - 1]);
                }
            }
            assert(a.skip(1).len() == b.skip(1).len());
            assert(a =~= b);
        }
    }
}

/// The order is irreflexive and asymmetric.
pub proof fn lex_asymmetric(a: Seq<char>, b: Seq<char>)
    ensures
        !(lex_lt(a, b) && lex_lt(b, a)),
        !lex_lt(a, a),
    decreases a.len(),
{
    if a.len() > 0 {
        lex_asymmetric(a.skip(1), a.skip(1));
        if b.len() > 0 {
            lex_asymmetric(a.skip(1), b.skip(1));
        }
    }
}

/// The order is transitive.
pub proof fn lex_transitive(a: Seq<char>, b: Seq<char>, c: Seq<char>)
    requires
        lex_lt(a, b),
        lex_lt(b, c),
    ensures
        lex_lt(a, c),
    decreases a.len(),
{
    if a.len() > 0 && b.len() > 0 && c.len() > 0 {
        if a[0] == b[0] && b[0] == c[0] {
            lex_transitive(a.skip(1), b.skip(1), c.skip(1));
        }
    }
}

/// Executable [`lex_lt`].
pub fn str_lt(a: &str, b: &str) -> (r: bool)
    ensures
        r == lex_lt(a@, b@),
{
    let n: usize = a.unicode_len();
    let m: usize = b.unicode_len();
    let mut i: usize = 0;
    proof {
        assert(a@.skip(0) =~= a@);
        assert(b@.skip(0) =~= b@);
    }
    while i < n && i < m
        invariant
            i <= n,
            i <= m,
            n == a@.len(),
            m == b@.len(),
            lex_lt(a@, b@) == lex_lt(a@.skip(i as int), b@.skip(i as int)),
        decreases n - i,
    {
        let x: char = a.get_char(i);
        let y: char = b.get_char(i);
        proof {
            assert(a@.skip(i as int)[0] == x);
            assert(b@.skip(i as int)[0] == y);
            assert(a@.skip(i as int).skip(1) =~= a@.skip(i + 1));
            assert(b@.skip(i as int).skip(1) =~= b@.skip(i + 1));
        }
        if x != y {
            return x < y;
        }
        i = i + 1;
    }
    i < m
}

/// The characters that Unicode gives the `White_Space` property.
pub open spec fn is_white_space(c: char) -> bool {
    let u = c as u32;
    ||| 0x9 <= u <= 0xd
    ||| u == 0x20
    ||| u == 0x85
    ||| u == 0xa0
    ||| u == 0x1680
    ||| 0x2000 <= u <= 0x200a
    ||| u == 0x2028
    ||| u == 0x2029
    ||| u == 0x202f
    ||| u == 0x205f
    ||| u == 0x3000
}

fn white_space(c: char) -> (r: bool)
    ensures
        r == is_white_space(c),
{
    let u: u32 = c as u32;
    (0x9 <= u && u <= 0xd) || u == 0x20 || u == 0x85 || u == 0xa0 || u == 0x1680 || (0x2000 <= u
        && u <= 0x200a) || u == 0x2028 || u == 0x2029 || u == 0x202f || u == 0x205f || u == 0x3000
}

/// The first character that is not white space is a minus sign.
pub open spec fn begins_negative(s: Seq<char>) -> bool {
    exists|i: int|
        #![trigger s[i]]
        0 <= i < s.len() && s[i] == '-' && forall|j: int| 0 <= j < i ==> is_white_space(s[j])
}

/// Whether a rail string such as `-12V` states a negative voltage.
pub fn rail_is_negative(rail: &str) -> (r: bool)
    ensures
        r == begins_negative(rail@),
{
    let n: usize = rail.unicode_len();
    let mut i: usize = 0;
    while i < n
        invariant
            i <= n,
            n == rail@.len(),
            forall|j: int| 0 <= j < i ==> is_white_space(rail@[j]),
        decreases n - i,
    {
        let c: char = rail.get_char(i);
        if c == '-' {
            assert(rail@[i as int] == '-');
            return true;
        }
        if !white_space(c) {
            assert forall|k: int| 0 <= k < rail@.len() && rail@[k] == '-' implies exists|j: int|
                0 <= j < k && !is_white_space(rail@[j]) by {
                assert(!is_white_space(rail@[i as int]));
                assert(!is_white_space('-'));
            }
            return false;
        }
        i = i + 1;
    }
    assert(!is_white_space('-'));
    false
}

/// A rail string is negative exactly if a minus sign comes first: leading white
/// space does not count, and anything else in front of the sign does.
pub proof fn negative_rails_lead_with_a_minus(s: Seq<char>, c: char)
    ensures
        begins_negative(seq!['-'] + s),
        begins_negative(seq![' '] + s) == begins_negative(s),
        c != '-' && !is_white_space(c) ==> !begins_negative(seq![c] + s),
        !begins_negative(Seq::<char>::empty()),
{
    let a = seq!['-'] + s;
    assert(a[0] == '-');
    let b = seq![' '] + s;
    assert(b[0] == ' ');
    if begins_negative(b) {
        let i = choose|i: int|
            #![trigger b[i]]
            0 <= i < b.len() && b[i] == '-' && forall|j: int| 0 <= j < i ==> is_white_space(b[j]);
        assert(s[i - 1] == '-');
        assert forall|j: int| 0 <= j < i - 1 implies is_white_space(s[j]) by {
            assert(b[j + 1] == s[j]);
        }
    }
    if begins_negative(s) {
        let i = choose|i: int|
            #![trigger s[i]]
            0 <= i < s.len() && s[i] == '-' && forall|j: int| 0 <= j < i ==> is_white_space(s[j]);
        assert(b[i + 1] == '-');
        assert forall|j: int| 0 <= j < i + 1 implies is_white_space(b[j]) by {
            if j > 0 {
                assert(b[j] == s[j - 1]);
            }
        }
    }
    let d = seq![c] + s;
    assert(d[0] == c);
}

/// Names sort by the first character in which they differ, and a name before
/// everything that goes on from it.
pub proof fn names_sort_by_the_first_difference(
    head: Seq<char>,
    x: char,
    y: char,
    a: Seq<char>,
    b: Seq<char>,
)
    ensures
        x < y ==> lex_lt(head + seq![x] + a, head + seq![y] + b),
        y < x ==> !lex_lt(head + seq![x] + a, head + seq![y] + b),
        lex_lt(head, head + seq![x] + a),
        !lex_lt(head + seq![x] + a, head),
    decreases head.len(),
{
    let (p, q) = (head + seq![x] + a, head + seq![y] + b);
    if head.len() > 0 {
        names_sort_by_the_first_difference(head.skip(1), x, y, a, b);
        assert(p.skip(1) =~= head.skip(1) + seq![x] + a);
        assert(q.skip(1) =~= head.skip(1) + seq![y] + b);
        assert(p[0] == head[0] && q[0] == head[0]);
    } else {
        assert(p[0] == x && q[0] == y);
    }
}

/// Lower case differs from upper case in the letters alone.
pub proof fn lower_case_folds_the_letters(s: Seq<char>, i: int)
    requires
        0 <= i < s.len(),
    ensures
        ascii_lower(s).len() == s.len(),
        'A' <= s[i] <= 'Z' ==> ascii_lower(s)[i] as int - 'a' as int == s[i] as int - 'A' as int,
        !('A' <= s[i] <= 'Z') ==> ascii_lower(s)[i] == s[i],
{
}

} // verus!
