//! Comma-separated lists of words.

use vstd::prelude::*;

verus! {

/// The character is white space.
pub open spec fn is_blank(c: char) -> bool {
    let u = c as u32;
    ||| 0x9 <= u <= 0xd
    ||| u == 0x20
    ||| u == 0x85
    ||| u == 0xa0
    ||| u == 0x1680
    ||| 0x2000 <= u <= 0x200a
    ||| u == 0x2028
    ||| u == 0x2029
    ||| u == 0x202f
    ||| u == 0x205f
    ||| u == 0x3000
}

/// The text without the white space that it begins with.
pub open spec fn without_lead(s: Seq<char>) -> Seq<char>
    decreases s.len(),
{
    if s.len() > 0 && is_blank(s[0]) {
        without_lead(s.skip(1))
    } else {
        s
    }
}

/// The text without the white space that it ends with.
pub open spec fn without_tail(s: Seq<char>) -> Seq<char>
    decreases s.len(),
{
    if s.len() > 0 && is_blank(s.last()) {
        without_tail(s.drop_last())
    } else {
        s
    }
}

/// The text without white space around it.
pub open spec fn trimmed(s: Seq<char>) -> Seq<char> {
    without_tail(without_lead(s))
}

/// The text from `i` to `j` lies between two commas, or between one and an end
/// of the list, and holds none.
pub open spec fn is_piece(s: Seq<char>, i: int, j: int) -> bool {
    &&& 0 <= i <= j <= s.len()
    &&& i == 0 || s[i - 1] == ','
    &&& j == s.len() || s[j] == ','
    &&& forall|k: int| i <= k < j ==> #[trigger] s[k] != ','
}

/// The word is in the comma-separated list.
pub open spec fn lists_word(list: Seq<char>, word: Seq<char>) -> bool {
    exists|i: int, j: int| #[trigger]
        is_piece(list, i, j) && trimmed(list.subrange(i, j)) == word
}

fn blank(c: char) -> (r: bool)
    ensures
        r == is_blank(c),
{
    let u: u32 = c as u32;
    (0x9 <= u && u <= 0xd) || u == 0x20 || u == 0x85 || u == 0xa0 || u == 0x1680 || (0x2000 <= u
        && u <= 0x200a) || u == 0x2028 || u == 0x2029 || u == 0x202f || u == 0x205f || u == 0x3000
}

fn piece_reads(list: &str, from: usize, to: usize, word: &str) -> (r: bool)
    requires
        from <= to <= list@.len(),
    ensures
        r == (trimmed(list@.subrange(from as int, to as int)) == word@),
{
    let ghost s = list@;
    let mut a: usize = from;
    while a < to && blank(list.get_char(a))
        invariant
            s == list@,
            from <= a <= to <= s.len(),
            without_lead(s.subrange(from as int, to as int)) == without_lead(
                s.subrange(a as int, to as int),
            ),
        decreases to - a,
    {
        proof {
            assert(s.subrange(a as int, to as int)[0] == s[a as int]);
            assert(s.subrange(a as int, to as int).skip(1) =~= s.subrange(a + 1, to as int));
        }
        a = a + 1;
    }
    proof {
        if a < to {
            assert(s.subrange(a as int, to as int)[0] == s[a as int]);
        }
        assert(without_lead(s.subrange(a as int, to as int)) == s.subrange(a as int, to as int));
    }
    let mut b: usize = to;
    while b > a && blank(list.get_char(b - 1))
        invariant
            s == list@,
            from <= a <= b <= to <= s.len(),
            without_tail(s.subrange(a as int, to as int)) == without_tail(
                s.subrange(a as int, b as int),
            ),
        decreases b,
    {
        proof {
            assert(s.subrange(a as int, b as int).last() == s[b - 1]);
            assert(s.subrange(a as int, b as int).drop_last() =~= s.subrange(a as int, b - 1));
        }
        b = b - 1;
    }
    proof {
        if b > a {
            assert(s.subrange(a as int, b as int).last() == s[b - 1]);
        }
        assert(trimmed(s.subrange(from as int, to as int)) == s.subrange(a as int, b as int));
    }
    if word.unicode_len() != b - a {
        return false;
    }
    let mut k: usize = 0;
    while k < b - a
        invariant
            s == list@,
            a <= b <= s.len(),
            k <= b - a,
            word@.len() == b - a,
            forall|j: int| 0 <= j < k ==> #[trigger] word@[j] == s[a + j],
            trimmed(s.subrange(from as int, to as int)) == s.subrange(a as int, b as int),
        decreases b - a - k,
    {
        if word.get_char(k) != list.get_char(a + k) {
            assert(s.subrange(a as int, b as int)[k as int] != word@[k as int]);
            return false;
        }
        k = k + 1;
    }
    assert(s.subrange(a as int, b as int) =~= word@);
    true
}

/// Whether the word is in the comma-separated list.
pub fn list_has_word(list: &str, word: &str) -> (r: bool)
    ensures
        r == lists_word(list@, word@),
{
    let ghost s = list@;
    let n: usize = list.unicode_len();
    let mut start: usize = 0;
    let mut k: usize = 0;
    while k < n
        invariant
            s == list@,
            n == s.len(),
            start <= k <= n,
            start == 0 || s[start - 1] == ',',
            forall|m: int| start <= m < k ==> #[trigger] s[m] != ',',
            forall|i: int, j: int| #[trigger]
                is_piece(s, i, j) && j < start ==> trimmed(s.subrange(i, j)) != word@,
        decreases n - k,
    {
        if list.get_char(k) == ',' {
            assert(is_piece(s, start as int, k as int));
            if piece_reads(list, start, k, word) {
                return true;
            }
            proof {
                assert forall|i: int, j: int| #[trigger]
                    is_piece(s, i, j) && j < k + 1 implies trimmed(s.subrange(i, j)) != word@ by {
                    if j >= start {
                        one_piece(s, start as int, k as int, i, j);
                    }
                }
            }
            start = k + 1;
        }
        k = k + 1;
    }
    assert(is_piece(s, start as int, n as int));
    let found = piece_reads(list, start, n, word);
    proof {
        if !found {
            assert forall|i: int, j: int| #[trigger] is_piece(s, i, j) implies trimmed(
                s.subrange(i, j),
            ) != word@ by {
                if j >= start {
                    one_piece(s, start as int, n as int, i, j);
                }
            }
        }
    }
    found
}

/// A piece that ends within another one is that piece.
proof fn one_piece(s: Seq<char>, a: int, b: int, i: int, j: int)
    requires
        is_piece(s, a, b),
        is_piece(s, i, j),
        a <= j <= b,
    ensures
        i == a && j == b,
{
    if j < b {
        assert(s[j] != ',');
    }
    if i > a {
        assert(s[i - 1] != ',');
    }
    if i < a {
        assert(s[a - 1] != ',');
    }
}

/// A list without commas holds one word: itself, without white space around it.
pub proof fn one_word_is_listed(word: Seq<char>)
    requires
        forall|k: int| 0 <= k < word.len() ==> #[trigger] word[k] != ',',
    ensures
        forall|w: Seq<char>| #[trigger] lists_word(word, w) <==> w == trimmed(word),
{
    assert(word.subrange(0, word.len() as int) =~= word);
    assert(is_piece(word, 0, word.len() as int));
    assert forall|w: Seq<char>| #[trigger] lists_word(word, w) implies w == trimmed(word) by {
        let (i, j) = choose|i: int, j: int| #[trigger]
            is_piece(word, i, j) && trimmed(word.subrange(i, j)) == w;
        one_piece(word, 0, word.len() as int, i, j);
    }
}

/// Trimming takes white space off both ends and nothing else: what stays
/// begins and ends with other characters, and what goes is blank.
pub proof fn trimming_takes_blanks_off_the_ends(s: Seq<char>) -> (ends: (int, int))
    ensures
        0 <= ends.0 <= ends.1 <= s.len(),
        trimmed(s) == s.subrange(ends.0, ends.1),
        trimmed(s).len() > 0 ==> !is_blank(trimmed(s)[0]) && !is_blank(trimmed(s).last()),
        forall|k: int| 0 <= k < ends.0 ==> is_blank(#[trigger] s[k]),
        forall|k: int| ends.1 <= k < s.len() ==> is_blank(#[trigger] s[k]),
{
    let a = lead_is_blank(s);
    let r = without_lead(s);
    let b = tail_is_blank(r);
    assert(r =~= s.skip(a));
    assert(trimmed(s) =~= s.subrange(a, a + b));
    assert forall|k: int| a + b <= k < s.len() implies is_blank(#[trigger] s[k]) by {
        assert(r[k - a] == s[k]);
    }
    if b > 0 {
        assert(trimmed(s)[0] == r[0]);
    }
    (a, a + b)
}

proof fn lead_is_blank(s: Seq<char>) -> (a: int)
    ensures
        0 <= a <= s.len(),
        without_lead(s) == s.skip(a),
        a < s.len() ==> !is_blank(s[a]),
        forall|k: int| 0 <= k < a ==> is_blank(#[trigger] s[k]),
    decreases s.len(),
{
    if s.len() > 0 && is_blank(s[0]) {
        let r = s.skip(1);
        let a = lead_is_blank(r);
        assert(r.skip(a) =~= s.skip(a + 1));
        assert forall|k: int| 0 <= k < a + 1 implies is_blank(#[trigger] s[k]) by {
            if k > 0 {
                assert(r[k - 1] == s[k]);
            }
        }
        if a < r.len() {
            assert(r[a] == s[a + 1]);
        }
        a + 1
    } else {
        assert(s.skip(0) =~= s);
        0
    }
}

proof fn tail_is_blank(s: Seq<char>) -> (b: int)
    ensures
        0 <= b <= s.len(),
        without_tail(s) == s.take(b),
        b > 0 ==> !is_blank(s[b - 1]),
        forall|k: int| b <= k < s.len() ==> is_blank(#[trigger] s[k]),
    decreases s.len(),
{
    if s.len() > 0 && is_blank(s.last()) {
        let r = s.drop_last();
        let b = tail_is_blank(r);
        assert(r.take(b) =~= s.take(b));
        assert forall|k: int| b <= k < s.len() implies is_blank(#[trigger] s[k]) by {
            if k < s.len() - 1 {
                assert(r[k] == s[k]);
            }
        }
        if b > 0 {
            assert(r[b - 1] == s[b - 1]);
        }
        b
    } else {
        assert(s.take(s.len() as int) =~= s);
        s.len() as int
    }
}

/// A comma parts a list: the words of two lists joined by one are the words of
/// the first and those of the second.
pub proof fn commas_part_the_list(a: Seq<char>, b: Seq<char>, word: Seq<char>)
    ensures
        lists_word(a + seq![','] + b, word) <==> lists_word(a, word) || lists_word(b, word),
{
    let s = a + seq![','] + b;
    let n = a.len() as int;
    assert(s[n] == ',');
    if lists_word(a, word) {
        let (i, j) = choose|i: int, j: int| #[trigger]
            is_piece(a, i, j) && trimmed(a.subrange(i, j)) == word;
        assert forall|k: int| i <= k < j implies #[trigger] s[k] != ',' by {
            assert(s[k] == a[k]);
        }
        if i > 0 {
            assert(s[i - 1] == a[i - 1]);
        }
        if j < n {
            assert(s[j] == a[j]);
        }
        assert(is_piece(s, i, j));
        assert(s.subrange(i, j) =~= a.subrange(i, j));
    }
    if lists_word(b, word) {
        let (i, j) = choose|i: int, j: int| #[trigger]
            is_piece(b, i, j) && trimmed(b.subrange(i, j)) == word;
        let (x, y) = (i + n + 1, j + n + 1);
        assert forall|k: int| x <= k < y implies #[trigger] s[k] != ',' by {
            assert(s[k] == b[k - n - 1]);
        }
        if i > 0 {
            assert(s[x - 1] == b[i - 1]);
        }
        if j < b.len() {
            assert(s[y] == b[j]);
        }
        assert(is_piece(s, x, y));
        assert(s.subrange(x, y) =~= b.subrange(i, j));
    }
    if lists_word(s, word) {
        let (i, j) = choose|i: int, j: int| #[trigger]
            is_piece(s, i, j) && trimmed(s.subrange(i, j)) == word;
        if i <= n {
            assert(j <= n) by {
                if j > n {
                    assert(s[n] != ',');
                }
            }
            assert forall|k: int| i <= k < j implies #[trigger] a[k] != ',' by {
                assert(s[k] == a[k]);
            }
            if i > 0 {
                assert(s[i - 1] == a[i - 1]);
            }
            if j < n {
                assert(s[j] == a[j]);
            }
            assert(is_piece(a, i, j));
            assert(s.subrange(i, j) =~= a.subrange(i, j));
        } else {
            let (x, y) = (i - n - 1, j - n - 1);
            assert forall|k: int| x <= k < y implies #[trigger] b[k] != ',' by {
                assert(s[k + n + 1] == b[k]);
            }
            if x > 0 {
                assert(s[i - 1] == b[x - 1]);
            }
            if y < b.len() {
                assert(s[j] == b[y]);
            }
            assert(is_piece(b, x, y));
            assert(s.subrange(i, j) =~= b.subrange(x, y));
        }
    }
}

} // verus!
