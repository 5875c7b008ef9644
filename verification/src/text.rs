//! Text building blocks for the request URLs: decimal numbers, joined lists
//! and percent-escaped colons.

use vstd::prelude::*;

verus! {

/// The decimal digit for `d` (0 to 9).
pub open spec fn digit_char(d: int) -> char {
    if d == 0 {
        '0'
    } else if d == 1 {
        '1'
    } else if d == 2 {
        '2'
    } else if d == 3 {
        '3'
    } else if d == 4 {
        '4'
    } else if d == 5 {
        '5'
    } else if d == 6 {
        '6'
    } else if d == 7 {
        '7'
    } else if d == 8 {
        '8'
    } else {
        '9'
    }
}

/// The decimal notation of `n`, without leading zeros.
pub open spec fn decimal(n: nat) -> Seq<char>
    decreases n,
{
    if n < 10 {
        seq![digit_char(n as int)]
    } else {
        decimal(n / 10).push(digit_char((n % 10) as int))
    }
}

/// The decimal notation of `i`, with a leading `-` when it is negative.
pub open spec fn signed_decimal(i: int) -> Seq<char> {
    if i < 0 {
        seq!['-'] + decimal((-i) as nat)
    } else {
        decimal(i as nat)
    }
}

fn digit_str(d: u8) -> (s: &'static str)
    requires
        d < 10,
    ensures
        s@ == seq![digit_char(d as int)],
{
    let digits = "0123456789";
    proof {
        reveal_strlit("0123456789");
    }
    let s = digits.substring_char(d as usize, d as usize + 1);
    assert(s@ =~= seq![digit_char(d as int)]);
    s
}

/// Writes `n` in decimal.
pub fn decimal_string(n: u128) -> (s: String)
    ensures
        s@ == decimal(n as nat),
    decreases n,
{
    if n < 10 {
        String::from_str(digit_str(n as u8))
    } else {
        let mut s = decimal_string(n / 10);
        s.append(digit_str((n % 10) as u8));
        s
    }
}

/// Writes `i` in decimal, with a leading `-` when it is negative.
pub fn signed_decimal_string(i: i64) -> (s: String)
    ensures
        s@ == signed_decimal(i as int),
{
    if i < 0 {
        let mut s = String::from_str("-");
        proof {
            reveal_strlit("-");
        }
        let magnitude: u128 = (0i128 - (i as i128)) as u128;
        let digits = decimal_string(magnitude);
        s.append(digits.as_str());
        assert(s@ =~= seq!['-'] + decimal((-i) as nat));
        s
    } else {
        decimal_string(i as u128)
    }
}

/// `parts` joined, with `sep` between each two of them.
pub open spec fn joined(parts: Seq<Seq<char>>, sep: Seq<char>) -> Seq<char>
    decreases parts.len(),
{
    if parts.len() == 0 {
        seq![]
    } else if parts.len() == 1 {
        parts[0]
    } else {
        joined(parts.drop_last(), sep) + sep + parts.last()
    }
}

/// The texts of a list of strings.
pub open spec fn texts(v: Seq<String>) -> Seq<Seq<char>> {
    v.map_values(|s: String| s@)
}

/// Joins `parts` with `sep` between each two of them.
pub fn join(parts: &[String], sep: &str) -> (s: String)
    ensures
        s@ == joined(texts(parts@), sep@),
{
    let mut s = String::new();
    let n = parts.len();
    for i in 0..n
        invariant
            n == parts@.len(),
            s@ == joined(texts(parts@).take(i as int), sep@),
    {
        let ghost all = texts(parts@);
        assert(all.take(i + 1).drop_last() =~= all.take(i as int));
        assert(all.take(i + 1).last() == parts@[i as int]@);
        if i > 0 {
            s.append(sep);
        }
        s.append(parts[i].as_str());
    }
    assert(texts(parts@).take(n as int) =~= texts(parts@));
    s
}

/// What a colon becomes in a URL query: `%3A`.
pub open spec fn escaped_colon() -> Seq<char> {
    seq!['%', '3', 'A']
}

/// What one character becomes when colons are escaped.
pub open spec fn escape_piece(c: char) -> Seq<char> {
    if c == ':' {
        escaped_colon()
    } else {
        seq![c]
    }
}

/// `text` with every `:` replaced by `%3A`.
pub open spec fn escape_colons(text: Seq<char>) -> Seq<char>
    decreases text.len(),
{
    if text.len() == 0 {
        seq![]
    } else {
        escape_piece(text[0]) + escape_colons(text.skip(1))
    }
}

/// `text` with every `%3A` replaced by `:`, read from the left as
/// `str::replace` reads it.
pub open spec fn unescape_colons(text: Seq<char>) -> Seq<char>
    decreases text.len(),
{
    if text.len() == 0 {
        seq![]
    } else if text.len() >= 3 && text.take(3) == escaped_colon() {
        seq![':'] + unescape_colons(text.skip(3))
    } else {
        seq![text[0]] + unescape_colons(text.skip(1))
    }
}

proof fn lemma_escape_push(text: Seq<char>, c: char)
    ensures
        escape_colons(text.push(c)) == escape_colons(text) + escape_piece(c),
    decreases text.len(),
{
    if text.len() == 0 {
        assert(text.push(c).skip(1) =~= Seq::<char>::empty());
        assert(escape_colons(Seq::<char>::empty()) == Seq::<char>::empty());
        assert(text.push(c)[0] == c);
        assert(escape_colons(text.push(c)) =~= escape_piece(c));
    } else {
        lemma_escape_push(text.skip(1), c);
        assert(text.push(c).skip(1) =~= text.skip(1).push(c));
        assert(text.push(c)[0] == text[0]);
        assert(escape_colons(text.push(c)) =~= escape_colons(text) + escape_piece(c));
    }
}

/// Replaces every `:` of `text` by `%3A`.
pub fn escape_colons_string(text: &str) -> (s: String)
    ensures
        s@ == escape_colons(text@),
{
    let mut s = String::new();
    let n = text.unicode_len();
    for i in 0..n
        invariant
            n == text@.len(),
            s@ == escape_colons(text@.take(i as int)),
    {
        let c = text.get_char(i);
        assert(text@.take(i + 1) =~= text@.take(i as int).push(c));
        proof {
            lemma_escape_push(text@.take(i as int), c);
        }
        if c == ':' {
            proof {
                reveal_strlit("%3A");
            }
            s.append("%3A");
        } else {
            let piece = text.substring_char(i, i + 1);
            assert(piece@ =~= seq![c]);
            s.append(piece);
        }
    }
    assert(text@.take(n as int) =~= text@);
    s
}


/// Escaping leaves no colon behind.
pub proof fn lemma_escape_colons_leaves_none(text: Seq<char>)
    ensures
        !escape_colons(text).contains(':'),
    decreases text.len(),
{
    if text.len() > 0 {
        lemma_escape_colons_leaves_none(text.skip(1));
        let head = escape_piece(text[0]);
        let tail = escape_colons(text.skip(1));
        assert forall|i: int| 0 <= i < escape_colons(text).len() implies escape_colons(text)[i]
            != ':' by {
            if i < head.len() {
                assert(escape_colons(text)[i] == head[i]);
            } else {
                assert(escape_colons(text)[i] == tail[i - head.len()]);
            }
        }
    }
}

/// Where `text` holds no `%`, replacing `%3A` by `:` undoes the escaping.
pub proof fn lemma_unescape_escape(text: Seq<char>)
    requires
        !text.contains('%'),
    ensures
        unescape_colons(escape_colons(text)) == text,
    decreases text.len(),
{
    if text.len() > 0 {
        let rest = text.skip(1);
        assert(!rest.contains('%')) by {
            if rest.contains('%') {
                let i = choose|i: int| 0 <= i < rest.len() && rest[i] == '%';
                assert(text[i + 1] == '%');
            }
        }
        lemma_unescape_escape(rest);
        let e = escape_colons(text);
        let piece = escape_piece(text[0]);
        assert(e == piece + escape_colons(rest));
        if text[0] == ':' {
            assert(e.take(3) =~= escaped_colon());
            assert(e.skip(3) =~= escape_colons(rest));
        } else {
            assert(text[0] != '%');
            assert(e[0] == text[0]);
            assert(e.skip(1) =~= escape_colons(rest));
        }
        assert(unescape_colons(e) =~= text);
    } else {
        assert(escape_colons(text) =~= seq![]);
        assert(unescape_colons(escape_colons(text)) =~= text);
    }
}

} // verus!
