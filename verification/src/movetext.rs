//! The textual move-list format: a game is written as a list of coordinate
//! pairs, `[]` or `[[7,7],[0,0]]`, with plain decimal numbers (no sign, no
//! leading zeros) and with whitespace allowed between tokens when reading.
//! The printer emits the canonical form without whitespace.  The format is
//! defined here as spec-level text generation and parsing functions;
//! executable printing and parsing are proved against them, and printing then
//! parsing is proved to give back the original moves.

use vstd::prelude::*;

verus! {

/// Decimal digit characters.
pub open spec fn is_digit(c: char) -> bool {
    48 <= c as int <= 57
}

/// Value of a digit character.
pub open spec fn digit_val(c: char) -> int {
    c as int - 48
}

/// Digit character of a value below ten.
pub open spec fn digit_char(d: int) -> char {
    if d == 0 {
        '0'
    } else if d == 1 {
        '1'
    } else if d == 2 {
        '2'
    } else if d == 3 {
        '3'
    } else if d == 4 {
        '4'
    } else if d == 5 {
        '5'
    } else if d == 6 {
        '6'
    } else if d == 7 {
        '7'
    } else if d == 8 {
        '8'
    } else {
        '9'
    }
}

/// Canonical decimal digits of `n`: no sign, no leading zeros.
pub open spec fn dec_digits(n: int) -> Seq<char>
    decreases n,
    when n >= 0
{
    if n < 10 {
        seq![digit_char(n)]
    } else {
        dec_digits(n / 10).push(digit_char(n % 10))
    }
}

/// Text of one coordinate pair: `[x,y]`.
pub open spec fn pair_text(m: (usize, usize)) -> Seq<char> {
    seq!['['] + dec_digits(m.0 as int) + seq![','] + dec_digits(m.1 as int) + seq![']']
}

/// Text of every pair of `ms`, each preceded by a separating comma.
pub open spec fn pairs_text(ms: Seq<(usize, usize)>) -> Seq<char>
    decreases ms.len(),
{
    if ms.len() == 0 {
        Seq::empty()
    } else {
        seq![','] + pair_text(ms[0]) + pairs_text(ms.drop_first())
    }
}

/// The move list text without its closing bracket.
pub open spec fn built_text(ms: Seq<(usize, usize)>) -> Seq<char> {
    if ms.len() == 0 {
        seq!['[']
    } else {
        seq!['['] + pair_text(ms[0]) + pairs_text(ms.drop_first())
    }
}

/// The full canonical text of a move list.
pub open spec fn moves_text(ms: Seq<(usize, usize)>) -> Seq<char> {
    built_text(ms) + seq![']']
}

/// First index at or after `i` that does not hold a digit.
pub open spec fn num_end(s: Seq<char>, i: int) -> int
    decreases s.len() - i,
    when 0 <= i <= s.len()
{
    if i < s.len() && is_digit(s[i]) {
        num_end(s, i + 1)
    } else {
        i
    }
}

/// Value of the digit block `s[i..j)`.
pub open spec fn num_val(s: Seq<char>, i: int, j: int) -> int
    decreases j - i,
    when i <= j
{
    if i >= j {
        0
    } else {
        num_val(s, i, j - 1) * 10 + digit_val(s[j - 1])
    }
}

/// A number can be read at position `i`: at least one digit, no leading zero,
/// and a value that fits `usize`.
pub open spec fn parse_num_ok(s: Seq<char>, i: int) -> bool {
    &&& 0 <= i < s.len()
    &&& num_end(s, i) > i
    &&& (s[i] == '0' ==> num_end(s, i) == i + 1)
    &&& num_val(s, i, num_end(s, i)) <= usize::MAX as int
}

/// The four whitespace characters that may separate tokens: space, tab,
/// line feed, carriage return.
pub open spec fn is_ws(c: char) -> bool {
    c == ' ' || c == '\t' || c == '\n' || c == '\r'
}

/// First index at or after `i` that does not hold whitespace.
pub open spec fn ws_end(s: Seq<char>, i: int) -> int
    decreases s.len() - i,
    when 0 <= i <= s.len()
{
    if i < s.len() && is_ws(s[i]) {
        ws_end(s, i + 1)
    } else {
        i
    }
}

/// Start of the first number of the pair at `i`.
pub open spec fn pair_n1(s: Seq<char>, i: int) -> int {
    ws_end(s, i + 1)
}

/// Position of the separating comma of the pair at `i`.
pub open spec fn pair_comma(s: Seq<char>, i: int) -> int {
    ws_end(s, num_end(s, pair_n1(s, i)))
}

/// Start of the second number of the pair at `i`.
pub open spec fn pair_n2(s: Seq<char>, i: int) -> int {
    ws_end(s, pair_comma(s, i) + 1)
}

/// Position of the closing bracket of the pair at `i`.
pub open spec fn pair_rb(s: Seq<char>, i: int) -> int {
    ws_end(s, num_end(s, pair_n2(s, i)))
}

/// A pair `[x,y]` can be read at position `i`, with whitespace allowed
/// between its tokens.
pub open spec fn parse_pair_ok(s: Seq<char>, i: int) -> bool {
    &&& 0 <= i
    &&& i < s.len() && s[i] == '['
    &&& parse_num_ok(s, pair_n1(s, i))
    &&& pair_comma(s, i) < s.len() && s[pair_comma(s, i)] == ','
    &&& parse_num_ok(s, pair_n2(s, i))
    &&& pair_rb(s, i) < s.len() && s[pair_rb(s, i)] == ']'
}

/// Position just after the pair read at `i`.
pub open spec fn pair_end(s: Seq<char>, i: int) -> int {
    pair_rb(s, i) + 1
}

/// The pair read at `i`.
pub open spec fn pair_val(s: Seq<char>, i: int) -> (usize, usize) {
    (
        num_val(s, pair_n1(s, i), num_end(s, pair_n1(s, i))) as usize,
        num_val(s, pair_n2(s, i), num_end(s, pair_n2(s, i))) as usize,
    )
}

/// Parse the remainder of a move list from position `i` (just after a pair):
/// either the closing bracket followed only by trailing whitespace, or a
/// comma and one more pair, repeated.  Whitespace may precede each token.
pub open spec fn parse_tail(s: Seq<char>, i: int) -> Option<Seq<(usize, usize)>>
    decreases s.len() - i,
    when 0 <= i <= s.len()
{
    let t = ws_end(s, i);
    if t < s.len() && s[t] == ']' && ws_end(s, t + 1) == s.len() {
        Some(Seq::empty())
    } else if t < s.len() && s[t] == ',' && parse_pair_ok(s, ws_end(s, t + 1)) && i < pair_end(
        s,
        ws_end(s, t + 1),
    ) && pair_end(s, ws_end(s, t + 1)) <= s.len() {
        match parse_tail(s, pair_end(s, ws_end(s, t + 1))) {
            Some(rest) => Some(seq![pair_val(s, ws_end(s, t + 1))] + rest),
            None => None::<Seq<(usize, usize)>>,
        }
    } else {
        None
    }
}

/// Parse a whole text as a move list: an opening bracket, coordinate pairs
/// separated by commas, a closing bracket, with whitespace allowed between
/// tokens; `None` on any other text.
pub open spec fn parse_moves_text(s: Seq<char>) -> Option<Seq<(usize, usize)>> {
    let b = ws_end(s, 0);
    let t = ws_end(s, b + 1);
    if b < s.len() && s[b] == '[' {
        if t < s.len() && s[t] == ']' && ws_end(s, t + 1) == s.len() {
            Some(Seq::empty())
        } else if parse_pair_ok(s, t) && t < pair_end(s, t) && pair_end(s, t) <= s.len() {
            match parse_tail(s, pair_end(s, t)) {
                Some(rest) => Some(seq![pair_val(s, t)] + rest),
                None => None::<Seq<(usize, usize)>>,
            }
        } else {
            None
        }
    } else {
        None
    }
}

/// Canonical digit strings are nonempty, all digits, and start with `'0'` only
/// for the number zero itself.
pub proof fn lemma_dec_digits_wf(n: int)
    requires
        n >= 0,
    ensures
        dec_digits(n).len() >= 1,
        forall|k: int| 0 <= k < dec_digits(n).len() ==> is_digit(#[trigger] dec_digits(n)[k]),
        dec_digits(n)[0] == '0' ==> n == 0 && dec_digits(n).len() == 1,
    decreases n,
{
    if n >= 10 {
        lemma_dec_digits_wf(n / 10);
        let d1 = dec_digits(n / 10);
        assert(dec_digits(n) == d1.push(digit_char(n % 10)));
        assert(forall|k: int|
            0 <= k < d1.len() ==> #[trigger] dec_digits(n)[k] == d1[k]);
        assert(is_digit(digit_char(n % 10)));
        assert(dec_digits(n)[0] == d1[0]);
        assert(n / 10 >= 1);
    }
}

/// `num_end` runs to the end of a digit block.
pub proof fn lemma_num_end_block(s: Seq<char>, i: int, j: int)
    requires
        0 <= i <= j <= s.len(),
        forall|k: int| i <= k < j ==> is_digit(#[trigger] s[k]),
        j < s.len() ==> !is_digit(s[j]),
    ensures
        num_end(s, i) == j,
    decreases j - i,
{
    if i < j {
        assert(is_digit(s[i]));
        lemma_num_end_block(s, i + 1, j);
    }
}

/// Reading back canonical digits gives the number.
pub proof fn lemma_num_val_digits(s: Seq<char>, i: int, n: int)
    requires
        n >= 0,
        0 <= i,
        i + dec_digits(n).len() <= s.len(),
        s.subrange(i, i + dec_digits(n).len()) == dec_digits(n),
    ensures
        num_val(s, i, i + dec_digits(n).len()) == n,
    decreases n,
{
    let d = dec_digits(n);
    assert forall|k: int| 0 <= k < d.len() implies s[i + k] == #[trigger] d[k] by {
        assert(s.subrange(i, i + d.len())[k] == s[i + k]);
    }
    if n < 10 {
        assert(d[0] == digit_char(n));
        assert(s[i + 0] == d[0]);
        assert(num_val(s, i, i + 1) == num_val(s, i, i) * 10 + digit_val(s[i]));
        assert(digit_val(digit_char(n)) == n);
    } else {
        let d1 = dec_digits(n / 10);
        assert(d == d1.push(digit_char(n % 10)));
        assert(s.subrange(i, i + d1.len()) =~= d1) by {
            assert forall|k: int| 0 <= k < d1.len() implies s[i + k] == #[trigger] d1[k] by {
                assert(d[k] == d1[k]);
            }
        }
        lemma_num_val_digits(s, i, n / 10);
        assert(d[d.len() - 1] == digit_char(n % 10));
        assert(s[i + (d.len() - 1)] == d[d.len() - 1]);
        assert(s[i + d.len() - 1] == digit_char(n % 10));
        assert(num_val(s, i, i + d.len()) == num_val(s, i, i + d.len() - 1) * 10 + digit_val(
            s[i + d.len() - 1],
        ));
        assert(digit_val(digit_char(n % 10)) == n % 10);
        assert(n / 10 * 10 + n % 10 == n);
    }
}

/// A canonical number embedded in a larger text, followed by a non-digit,
/// scans back to itself.
pub proof fn lemma_scan_canonical_num(s: Seq<char>, i: int, n: int)
    requires
        0 <= n <= usize::MAX as int,
        0 <= i,
        i + dec_digits(n).len() <= s.len(),
        s.subrange(i, i + dec_digits(n).len()) == dec_digits(n),
        i + dec_digits(n).len() < s.len() ==> !is_digit(s[i + dec_digits(n).len()]),
    ensures
        parse_num_ok(s, i),
        num_end(s, i) == i + dec_digits(n).len(),
        num_val(s, i, num_end(s, i)) == n,
{
    let d = dec_digits(n);
    lemma_dec_digits_wf(n);
    assert forall|k: int| 0 <= k < d.len() implies s[i + k] == #[trigger] d[k] by {
        assert(s.subrange(i, i + d.len())[k] == s[i + k]);
    }
    assert forall|k: int| i <= k < i + d.len() implies is_digit(#[trigger] s[k]) by {
        assert(s[i + (k - i)] == d[k - i]);
    }
    lemma_num_end_block(s, i, i + d.len());
    lemma_num_val_digits(s, i, n);
    assert(s[i + 0] == d[0]);
}

/// A canonical pair embedded in a larger text scans back to itself.
pub proof fn lemma_scan_canonical_pair(s: Seq<char>, i: int, m: (usize, usize))
    requires
        0 <= i,
        i + pair_text(m).len() <= s.len(),
        s.subrange(i, i + pair_text(m).len()) == pair_text(m),
    ensures
        parse_pair_ok(s, i),
        pair_end(s, i) == i + pair_text(m).len(),
        pair_val(s, i) == m,
{
    let pt = pair_text(m);
    let dx = dec_digits(m.0 as int);
    let dy = dec_digits(m.1 as int);
    let a = dx.len() as int;
    let b = dy.len() as int;
    lemma_dec_digits_wf(m.0 as int);
    lemma_dec_digits_wf(m.1 as int);
    assert(pt.len() == a + b + 3);
    assert forall|k: int| 0 <= k < pt.len() implies s[i + k] == #[trigger] pt[k] by {
        assert(s.subrange(i, i + pt.len())[k] == s[i + k]);
    }
    assert(pt[0] == '[');
    assert(s[i + 0] == pt[0]);
    assert forall|k: int| 0 <= k < a implies pt[1 + k] == #[trigger] dx[k] by {
    }
    assert(pt[1 + a] == ',');
    assert forall|k: int| 0 <= k < b implies pt[2 + a + k] == #[trigger] dy[k] by {
    }
    assert(pt[2 + a + b] == ']');
    assert(s.subrange(i + 1, i + 1 + a) =~= dx) by {
        assert forall|k: int| 0 <= k < a implies s[i + 1 + k] == #[trigger] dx[k] by {
            assert(s[i + (1 + k)] == pt[1 + k]);
        }
    }
    assert(s[i + (1 + a)] == pt[1 + a]);
    assert(!is_digit(','));
    lemma_scan_canonical_num(s, i + 1, m.0 as int);
    assert(num_end(s, i + 1) == i + 1 + a);
    assert(s.subrange(i + 2 + a, i + 2 + a + b) =~= dy) by {
        assert forall|k: int| 0 <= k < b implies s[i + 2 + a + k] == #[trigger] dy[k] by {
            assert(s[i + (2 + a + k)] == pt[2 + a + k]);
        }
    }
    assert(s[i + (2 + a + b)] == pt[2 + a + b]);
    assert(!is_digit(']'));
    lemma_scan_canonical_num(s, i + 2 + a, m.1 as int);
    assert(num_end(s, i + 2 + a) == i + 2 + a + b);
    assert(num_val(s, i + 1, i + 1 + a) == m.0 as int);
    assert(num_val(s, i + 2 + a, i + 2 + a + b) == m.1 as int);
    // the canonical text has no whitespace, so every skip stays in place
    assert(is_digit(s[i + 1]) && is_digit(s[i + 2 + a]));
    assert(pair_n1(s, i) == i + 1) by {
        assert(!is_ws(s[i + 1]));
    }
    assert(pair_comma(s, i) == i + 1 + a) by {
        assert(!is_ws(s[i + (1 + a)]));
    }
    assert(pair_n2(s, i) == i + 2 + a) by {
        assert(!is_ws(s[i + (2 + a)]));
    }
    assert(pair_rb(s, i) == i + 2 + a + b) by {
        assert(!is_ws(s[i + (2 + a + b)]));
    }
}

/// The canonical text of the pairs remaining after position `i` parses back
/// to exactly those pairs.
pub proof fn lemma_parse_canonical_tail(s: Seq<char>, i: int, ms: Seq<(usize, usize)>)
    requires
        0 <= i <= s.len(),
        s.subrange(i, s.len() as int) == pairs_text(ms) + seq![']'],
    ensures
        parse_tail(s, i) == Some(ms),
    decreases ms.len(),
{
    let rest = s.subrange(i, s.len() as int);
    assert(rest.len() == s.len() - i);
    assert forall|k: int| 0 <= k < rest.len() implies s[i + k] == #[trigger] rest[k] by {
    }
    if ms.len() == 0 {
        assert(pairs_text(ms).len() == 0);
        assert(rest.len() == 1);
        assert(rest[0] == ']');
        assert(s[i + 0] == rest[0]);
        assert(i == s.len() - 1 && s[i] == ']');
        assert(ws_end(s, i) == i) by {
            assert(!is_ws(s[i]));
        }
        assert(ws_end(s, i + 1) == s.len());
        assert(parse_tail(s, i) == Some(Seq::<(usize, usize)>::empty()));
    } else {
        let m0 = ms[0];
        let pt = pair_text(m0);
        let p = pt.len() as int;
        let tail2 = pairs_text(ms.drop_first()) + seq![']'];
        assert(pairs_text(ms) == seq![','] + pt + pairs_text(ms.drop_first()));
        assert(rest =~= seq![','] + pt + tail2);
        assert(rest[0] == ',');
        assert(s[i + 0] == rest[0]);
        assert(rest.len() == 1 + p + tail2.len());
        assert(s.subrange(i + 1, i + 1 + p) =~= pt) by {
            assert forall|k: int| 0 <= k < p implies s[i + 1 + k] == #[trigger] pt[k] by {
                assert(rest[1 + k] == pt[k]);
                assert(s[i + (1 + k)] == rest[1 + k]);
            }
        }
        lemma_scan_canonical_pair(s, i + 1, m0);
        assert(pair_end(s, i + 1) == i + 1 + p);
        assert(s.subrange(i + 1 + p, s.len() as int) =~= tail2) by {
            assert forall|k: int| 0 <= k < tail2.len() implies s[i + 1 + p + k] == #[trigger] tail2[k]
                by {
                assert(rest[1 + p + k] == tail2[k]);
                assert(s[i + (1 + p + k)] == rest[1 + p + k]);
            }
        }
        lemma_parse_canonical_tail(s, i + 1 + p, ms.drop_first());
        assert(ws_end(s, i) == i) by {
            assert(!is_ws(s[i]));
        }
        assert(rest[1] == pt[0]);
        assert(s[i + 1] == pt[0] && pt[0] == '[');
        assert(ws_end(s, i + 1) == i + 1) by {
            assert(!is_ws(s[i + 1]));
        }
        assert(parse_tail(s, i) == Some(seq![pair_val(s, i + 1)] + ms.drop_first()));
        assert(seq![m0] + ms.drop_first() =~= ms);
    }
}

/// Printing a move list and parsing the text gives back the same move list,
/// whatever the moves are.
pub proof fn lemma_moves_text_round_trip(ms: Seq<(usize, usize)>)
    ensures
        parse_moves_text(moves_text(ms)) == Some(ms),
{
    let s = moves_text(ms);
    if ms.len() == 0 {
        assert(s =~= seq!['[', ']']);
        assert(s[0] == '[' && s[1] == ']');
        assert(ws_end(s, 0) == 0) by {
            assert(!is_ws(s[0]));
        }
        assert(ws_end(s, 1) == 1) by {
            assert(!is_ws(s[1]));
        }
        assert(ws_end(s, 2) == 2);
        assert(parse_moves_text(s) == Some(Seq::<(usize, usize)>::empty()));
    } else {
        let m0 = ms[0];
        let pt = pair_text(m0);
        let p = pt.len() as int;
        let tail2 = pairs_text(ms.drop_first()) + seq![']'];
        assert(s =~= seq!['['] + pt + tail2);
        assert(s[0] == '[');
        assert(s.len() == 1 + p + tail2.len());
        lemma_dec_digits_wf(m0.0 as int);
        lemma_dec_digits_wf(m0.1 as int);
        assert(s.subrange(1, 1 + p) =~= pt) by {
            assert forall|k: int| 0 <= k < p implies s[1 + k] == #[trigger] pt[k] by {
            }
        }
        lemma_scan_canonical_pair(s, 1, m0);
        assert(pair_end(s, 1) == 1 + p);
        assert(s.subrange(1 + p, s.len() as int) =~= tail2) by {
            assert forall|k: int| 0 <= k < tail2.len() implies s[1 + p + k] == #[trigger] tail2[k]
                by {
            }
        }
        lemma_parse_canonical_tail(s, 1 + p, ms.drop_first());
        assert(ws_end(s, 0) == 0) by {
            assert(!is_ws(s[0]));
        }
        assert(s[1] == pt[0] && pt[0] == '[');
        assert(ws_end(s, 1) == 1) by {
            assert(!is_ws(s[1]));
        }
        assert(parse_moves_text(s) == Some(seq![pair_val(s, 1)] + ms.drop_first()));
        assert(seq![m0] + ms.drop_first() =~= ms);
    }
}

/// Appending one pair to a move list appends one comma-separated pair to the
/// pairs text.
pub proof fn lemma_pairs_snoc(ms: Seq<(usize, usize)>, m: (usize, usize))
    ensures
        pairs_text(ms.push(m)) == pairs_text(ms) + seq![','] + pair_text(m),
    decreases ms.len(),
{
    if ms.len() == 0 {
        assert(ms.push(m)[0] == m);
        assert(ms.push(m).drop_first() =~= Seq::<(usize, usize)>::empty());
        assert(ms.push(m).drop_first() == Seq::<(usize, usize)>::empty());
        assert(pairs_text(ms.push(m)) == seq![','] + pair_text(ms.push(m)[0]) + pairs_text(
            ms.push(m).drop_first(),
        ));
        assert(pairs_text(Seq::<(usize, usize)>::empty()) == Seq::<char>::empty());
        assert(pairs_text(ms.push(m)) =~= pairs_text(ms) + seq![','] + pair_text(m));
    } else {
        assert(ms.push(m)[0] == ms[0]);
        assert(ms.push(m).drop_first() =~= ms.drop_first().push(m));
        lemma_pairs_snoc(ms.drop_first(), m);
        assert(pairs_text(ms.push(m)) =~= pairs_text(ms) + seq![','] + pair_text(m));
    }
}

/// Growing the printed prefix by one move appends that move's text, with a
/// comma before it unless it is the first.
pub proof fn lemma_built_snoc(ms: Seq<(usize, usize)>, i: int)
    requires
        0 <= i < ms.len(),
    ensures
        i == 0 ==> built_text(ms.take(i + 1)) == built_text(ms.take(i)) + pair_text(ms[i]),
        i > 0 ==> built_text(ms.take(i + 1)) == built_text(ms.take(i)) + seq![','] + pair_text(
            ms[i],
        ),
{
    let t0 = ms.take(i);
    let t1 = ms.take(i + 1);
    assert(t1 =~= t0.push(ms[i]));
    if i == 0 {
        assert(t1[0] == ms[0]);
        assert(t1.drop_first() =~= Seq::<(usize, usize)>::empty());
        assert(built_text(t1) =~= built_text(t0) + pair_text(ms[i]));
    } else {
        assert(t1[0] == ms[0]);
        assert(t0[0] == ms[0]);
        assert(t1.drop_first() =~= t0.drop_first().push(ms[i]));
        lemma_pairs_snoc(t0.drop_first(), ms[i]);
        assert(built_text(t1) =~= built_text(t0) + seq![','] + pair_text(ms[i]));
    }
}

/// One decimal digit as text.
fn digit_str(d: usize) -> (r: &'static str)
    requires
        d < 10,
    ensures
        r@ == seq![digit_char(d as int)],
{
    proof {
        reveal_strlit("0");
        reveal_strlit("1");
        reveal_strlit("2");
        reveal_strlit("3");
        reveal_strlit("4");
        reveal_strlit("5");
        reveal_strlit("6");
        reveal_strlit("7");
        reveal_strlit("8");
        reveal_strlit("9");
    }
    match d {
        0 => "0",
        1 => "1",
        2 => "2",
        3 => "3",
        4 => "4",
        5 => "5",
        6 => "6",
        7 => "7",
        8 => "8",
        _ => "9",
    }
}

/// The canonical decimal text of `n`.
pub fn usize_string(n: usize) -> (r: String)
    ensures
        r@ == dec_digits(n as int),
    decreases n,
{
    if n < 10 {
        digit_str(n).to_owned()
    } else {
        let mut prefix = usize_string(n / 10);
        prefix.append(digit_str(n % 10));
        proof {
            assert(prefix@ =~= dec_digits(n as int));
        }
        prefix
    }
}

/// The canonical move list text of `ms`.
pub fn moves_to_string(ms: &Vec<(usize, usize)>) -> (r: String)
    ensures
        r@ == moves_text(ms@),
{
    proof {
        reveal_strlit("[");
        reveal_strlit("]");
        reveal_strlit(",");
    }
    let mut out = "[".to_owned();
    proof {
        assert(ms@.take(0) =~= Seq::<(usize, usize)>::empty());
        assert(out@ =~= built_text(ms@.take(0)));
    }
    let mut i: usize = 0;
    while i < ms.len()
        invariant
            i <= ms@.len(),
            out@ == built_text(ms@.take(i as int)),
        decreases ms@.len() - i,
    {
        proof {
            reveal_strlit("[");
            reveal_strlit("]");
            reveal_strlit(",");
        }
        if i > 0 {
            out.append(",");
        }
        out.append("[");
        out.append(usize_string(ms[i].0).as_str());
        out.append(",");
        out.append(usize_string(ms[i].1).as_str());
        out.append("]");
        proof {
            lemma_built_snoc(ms@, i as int);
            assert(out@ =~= built_text(ms@.take(i as int + 1)));
        }
        i = i + 1;
    }
    out.append("]");
    proof {
        assert(ms@.take(ms@.len() as int) =~= ms@);
    }
    out
}

/// Whether `c` is a decimal digit.
fn is_digit_exec(c: char) -> (r: bool)
    ensures
        r == is_digit(c),
{
    let u = c as u32;
    48 <= u && u <= 57
}

/// Whether `c` is token-separating whitespace.
fn is_ws_exec(c: char) -> (r: bool)
    ensures
        r == is_ws(c),
{
    c == ' ' || c == '\t' || c == '\n' || c == '\r'
}

/// First position at or after `i` without whitespace.
fn ws_end_exec(s: &str, len: usize, i: usize) -> (r: usize)
    requires
        len == s@.len(),
        i <= len,
    ensures
        r as int == ws_end(s@, i as int),
        i <= r <= len,
{
    let ghost ss = s@;
    let mut j = i;
    let mut scanning = true;
    while scanning && j < len
        invariant
            i <= j <= len,
            len == ss.len(),
            ss == s@,
            ws_end(ss, i as int) == if scanning {
                ws_end(ss, j as int)
            } else {
                j as int
            },
        decreases len - j, (if scanning { 1int } else { 0int }),
    {
        let c = s.get_char(j);
        if is_ws_exec(c) {
            j = j + 1;
        } else {
            scanning = false;
        }
    }
    j
}

/// First position at or after `i` without a digit.
fn num_end_exec(s: &str, len: usize, i: usize) -> (r: usize)
    requires
        len == s@.len(),
        i <= len,
    ensures
        r as int == num_end(s@, i as int),
        i <= r <= len,
{
    let ghost ss = s@;
    let mut j = i;
    let mut scanning = true;
    while scanning && j < len
        invariant
            i <= j <= len,
            len == ss.len(),
            ss == s@,
            num_end(ss, i as int) == if scanning {
                num_end(ss, j as int)
            } else {
                j as int
            },
        decreases len - j, (if scanning { 1int } else { 0int }),
    {
        let c = s.get_char(j);
        if is_digit_exec(c) {
            j = j + 1;
        } else {
            scanning = false;
        }
    }
    j
}

/// Read the number at position `i`: its value and its end position, or `None`
/// if there is no digit, a leading zero, or a value too large for `usize`.
fn scan_num(s: &str, len: usize, i: usize) -> (r: Option<(usize, usize)>)
    requires
        len == s@.len(),
        i <= len,
    ensures
        r matches Some(ve) ==> parse_num_ok(s@, i as int) && ve.0 as int == num_val(
            s@,
            i as int,
            num_end(s@, i as int),
        ) && ve.1 as int == num_end(s@, i as int) && i < ve.1 <= len,
        r is None ==> !parse_num_ok(s@, i as int),
{
    let ghost ss = s@;
    let e = num_end_exec(s, len, i);
    if e == i {
        return None;
    }
    if e > i + 1 && s.get_char(i) == '0' {
        return None;
    }
    proof {
        lemma_num_block_digits(ss, i as int);
    }
    let mut val: usize = 0;
    let mut j = i;
    while j < e
        invariant
            i <= j <= e,
            len == ss.len(),
            ss == s@,
            e as int == num_end(ss, i as int),
            i < e <= len,
            forall|k: int| i <= k < e ==> is_digit(#[trigger] ss[k]),
            val as int == num_val(ss, i as int, j as int),
        decreases e - j,
    {
        let c = s.get_char(j);
        let d = (c as u32 - 48) as usize;
        proof {
            assert(is_digit(ss[j as int]));
            assert(d == digit_val(ss[j as int]));
        }
        if val > (usize::MAX - d) / 10 {
            proof {
                assert(val as int * 10 + d > usize::MAX as int) by (nonlinear_arith)
                    requires
                        val as int > (usize::MAX as int - d) / 10,
                        0 <= d <= 9,
                {
                }
                assert(num_val(ss, i as int, j as int + 1) == val as int * 10 + d);
                lemma_num_val_monotone(ss, i as int, j as int + 1, e as int);
            }
            return None;
        }
        proof {
            assert(val as int * 10 + d <= usize::MAX as int) by (nonlinear_arith)
                requires
                    val as int <= (usize::MAX as int - d) / 10,
                    0 <= d <= 9,
            {
            }
        }
        val = val * 10 + d;
        j = j + 1;
    }
    Some((val, e))
}

/// Every character of the number block starting at `i` is a digit.
proof fn lemma_num_block_digits(s: Seq<char>, i: int)
    requires
        0 <= i <= s.len(),
    ensures
        i <= num_end(s, i) <= s.len(),
        forall|k: int| i <= k < num_end(s, i) ==> is_digit(#[trigger] s[k]),
    decreases s.len() - i,
{
    if i < s.len() && is_digit(s[i]) {
        lemma_num_block_digits(s, i + 1);
    }
}

/// A digit block's value only grows as the block extends.
proof fn lemma_num_val_monotone(s: Seq<char>, i: int, j: int, k: int)
    requires
        0 <= i <= j <= k <= s.len(),
        forall|t: int| i <= t < k ==> is_digit(#[trigger] s[t]),
    ensures
        num_val(s, i, j) <= num_val(s, i, k),
        num_val(s, i, j) >= 0,
    decreases k - j,
{
    if j == k {
        lemma_num_val_nonneg(s, i, j);
    } else {
        lemma_num_val_monotone(s, i, j, k - 1);
        lemma_num_val_nonneg(s, i, k - 1);
        assert(num_val(s, i, k) == num_val(s, i, k - 1) * 10 + digit_val(s[k - 1]));
        assert(num_val(s, i, k - 1) * 10 >= num_val(s, i, k - 1)) by (nonlinear_arith)
            requires
                num_val(s, i, k - 1) >= 0,
        {
        }
        assert(digit_val(s[k - 1]) >= 0);
    }
}

/// A digit block's value is never negative.
proof fn lemma_num_val_nonneg(s: Seq<char>, i: int, j: int)
    requires
        0 <= i <= j <= s.len(),
        forall|t: int| i <= t < j ==> is_digit(#[trigger] s[t]),
    ensures
        num_val(s, i, j) >= 0,
    decreases j - i,
{
    if i < j {
        lemma_num_val_nonneg(s, i, j - 1);
        assert(num_val(s, i, j - 1) * 10 >= 0) by (nonlinear_arith)
            requires
                num_val(s, i, j - 1) >= 0,
        {
        }
    }
}

/// Read the pair `[x,y]` at position `i`: its value and end position, or
/// `None` if the text there is not a pair.
fn scan_pair(s: &str, len: usize, i: usize) -> (r: Option<((usize, usize), usize)>)
    requires
        len == s@.len(),
        i <= len,
    ensures
        r matches Some(ve) ==> parse_pair_ok(s@, i as int) && ve.0 == pair_val(s@, i as int)
            && ve.1 as int == pair_end(s@, i as int) && i < ve.1 <= len,
        r is None ==> !parse_pair_ok(s@, i as int),
{
    if i >= len || s.get_char(i) != '[' {
        return None;
    }
    let a = ws_end_exec(s, len, i + 1);
    let n1 = match scan_num(s, len, a) {
        Some(ve) => ve,
        None => {
            return None;
        },
    };
    let c = ws_end_exec(s, len, n1.1);
    if c >= len || s.get_char(c) != ',' {
        return None;
    }
    let d = ws_end_exec(s, len, c + 1);
    let n2 = match scan_num(s, len, d) {
        Some(ve) => ve,
        None => {
            return None;
        },
    };
    let f = ws_end_exec(s, len, n2.1);
    if f >= len || s.get_char(f) != ']' {
        return None;
    }
    Some(((n1.0, n2.0), f + 1))
}

/// Parse a whole text as a move list.  Returns the moves exactly when the
/// text is in the canonical format; any deviation gives `None`.
pub fn parse_moves(s: &str) -> (r: Option<Vec<(usize, usize)>>)
    ensures
        r matches Some(ms) ==> parse_moves_text(s@) == Some(ms@),
        r is None ==> parse_moves_text(s@) is None,
{
    let len = s.unicode_len();
    let b = ws_end_exec(s, len, 0);
    if b >= len || s.get_char(b) != '[' {
        return None;
    }
    let t = ws_end_exec(s, len, b + 1);
    if t < len && s.get_char(t) == ']' {
        let after = ws_end_exec(s, len, t + 1);
        if after == len {
            let empty_moves: Vec<(usize, usize)> = Vec::new();
            return Some(empty_moves);
        }
        return None;
    }
    let first = match scan_pair(s, len, t) {
        Some(ve) => ve,
        None => {
            return None;
        },
    };
    let mut acc: Vec<(usize, usize)> = Vec::new();
    acc.push(first.0);
    let mut i = first.1;
    proof {
        assert(acc@ =~= seq![pair_val(s@, t as int)]);
    }
    loop
        invariant
            1 <= i <= len,
            len == s@.len(),
            (parse_moves_text(s@) == match parse_tail(s@, i as int) {
                Some(rest) => Some(acc@ + rest),
                None => None::<Seq<(usize, usize)>>,
            }),
        decreases len - i,
    {
        let t2 = ws_end_exec(s, len, i);
        if t2 >= len {
            return None;
        }
        let c = s.get_char(t2);
        if c == ']' {
            let after = ws_end_exec(s, len, t2 + 1);
            if after == len {
                proof {
                    assert(parse_tail(s@, i as int) == Some(Seq::<(usize, usize)>::empty()));
                    assert(acc@ + Seq::<(usize, usize)>::empty() =~= acc@);
                }
                return Some(acc);
            }
            proof {
                assert(parse_tail(s@, i as int) is None);
            }
            return None;
        }
        if c != ',' {
            proof {
                assert(parse_tail(s@, i as int) is None);
            }
            return None;
        }
        let p2 = ws_end_exec(s, len, t2 + 1);
        match scan_pair(s, len, p2) {
            None => {
                proof {
                    assert(parse_tail(s@, i as int) is None);
                }
                return None;
            },
            Some(ve) => {
                let ghost acc_old = acc@;
                acc.push(ve.0);
                proof {
                    assert(parse_tail(s@, i as int) == (match parse_tail(s@, ve.1 as int) {
                        Some(rest) => Some(seq![pair_val(s@, p2 as int)] + rest),
                        None => None::<Seq<(usize, usize)>>,
                    }));
                    let pt = parse_tail(s@, ve.1 as int);
                    if pt is Some {
                        let rest = pt->Some_0;
                        assert(acc_old + (seq![ve.0] + rest) =~= acc@ + rest);
                    }
                }
                i = ve.1;
            },
        }
    }
}

} // verus!
