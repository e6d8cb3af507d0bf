//! The assignment-file line format: `<x> <y> <region_id>`, space-delimited.
//!
//! The index builder renders one such line per assignment; the aggregation
//! engine's loader parses them back.  Rendering and parsing are verified
//! against one spec-level description of the format, and parsing a rendered
//! line is proved to give back exactly what was written.

use vstd::prelude::*;
use vstd::arithmetic::div_mod::lemma_fundamental_div_mod;

verus! {

/// The byte that separates the fields of a line.
pub const FIELD_SEP: u8 = 32;

/// Decimal digit bytes of `n`, most significant first.
pub open spec fn dec_rep(n: nat) -> Seq<u8>
    decreases n,
{
    if n < 10 {
        seq![(48 + n) as u8]
    } else {
        dec_rep(n / 10).push((48 + n % 10) as u8)
    }
}

/// Numeric value of a digit string, most significant first.
pub open spec fn dec_val(s: Seq<u8>) -> nat
    decreases s.len(),
{
    if s.len() == 0 {
        0
    } else {
        dec_val(s.drop_last()) * 10 + (s[s.len() - 1] - 48) as nat
    }
}

/// A non-empty, all-digit token.
pub open spec fn digits_ok(s: Seq<u8>) -> bool {
    s.len() >= 1 && forall|i: int| 0 <= i < s.len() ==> 48 <= #[trigger] s[i] <= 57
}

/// A token that a numeric field accepts: digits whose value fits the
/// machine's index type.
pub open spec fn token_val_ok(s: Seq<u8>) -> bool {
    digits_ok(s) && dec_val(s) <= usize::MAX
}

/// The decimal form of a number is a non-empty digit string.
pub proof fn lemma_dec_rep_digits(n: nat)
    ensures
        digits_ok(dec_rep(n)),
    decreases n,
{
    if n >= 10 {
        lemma_dec_rep_digits(n / 10);
    }
}

/// Parsing the decimal form of a number gives the number back.
pub proof fn lemma_dec_rep_val(n: nat)
    ensures
        dec_val(dec_rep(n)) == n,
    decreases n,
{
    reveal_with_fuel(dec_val, 3);
    if n < 10 {
        assert(dec_rep(n) == seq![(48 + n) as u8]);
        assert(dec_rep(n).drop_last() =~= Seq::<u8>::empty());
        assert(((48 + n) as u8) as nat == 48 + n);
        assert(dec_val(dec_rep(n)) == 0 * 10 + (((48 + n) as u8) - 48) as nat);
    } else {
        lemma_dec_rep_val(n / 10);
        lemma_fundamental_div_mod(n as int, 10);
        assert(dec_rep(n).drop_last() =~= dec_rep(n / 10));
        assert(((48 + n % 10) as u8) as nat == 48 + n % 10);
        assert(dec_rep(n)[dec_rep(n).len() - 1] == (48 + n % 10) as u8);
        assert(dec_val(dec_rep(n)) == (n / 10) * 10 + (((48 + n % 10) as u8) - 48) as nat);
    }
}

/// The value of a digit string never falls when more digits follow.
pub proof fn lemma_dec_val_prefix_le(s: Seq<u8>, i: int)
    requires
        0 <= i <= s.len(),
    ensures
        dec_val(s.subrange(0, i)) <= dec_val(s),
    decreases s.len() - i,
{
    if i < s.len() {
        lemma_dec_val_prefix_le(s, i + 1);
        assert(s.subrange(0, i + 1).drop_last() =~= s.subrange(0, i));
        let v = dec_val(s.subrange(0, i));
        assert(v <= v * 10) by (nonlinear_arith)
            requires v >= 0;
    } else {
        assert(s.subrange(0, i) =~= s);
    }
}

/// Index of the first separator at or after `from`, or the length when no
/// separator follows.
pub open spec fn find_sep(s: Seq<u8>, from: int) -> int
    decreases s.len() - from,
{
    if from >= s.len() {
        s.len() as int
    } else if s[from] == FIELD_SEP {
        from
    } else {
        find_sep(s, from + 1)
    }
}

/// `find_sep` lands on `i` exactly when no separator stands before it and
/// `i` is a separator or the end.
pub proof fn lemma_find_sep_at(s: Seq<u8>, from: int, i: int)
    requires
        0 <= from <= i <= s.len(),
        forall|k: int| from <= k < i ==> #[trigger] s[k] != FIELD_SEP,
        i == s.len() || s[i] == FIELD_SEP,
    ensures
        find_sep(s, from) == i,
    decreases i - from,
{
    if from < i {
        lemma_find_sep_at(s, from + 1, i);
    }
}

/// Basic placement facts about `find_sep`.
pub proof fn lemma_find_sep_props(s: Seq<u8>, from: int)
    requires
        0 <= from <= s.len(),
    ensures
        from <= find_sep(s, from) <= s.len(),
        find_sep(s, from) < s.len() ==> s[find_sep(s, from)] == FIELD_SEP,
        forall|k: int| from <= k < find_sep(s, from) ==> #[trigger] s[k] != FIELD_SEP,
    decreases s.len() - from,
{
    if from < s.len() && s[from] != FIELD_SEP {
        lemma_find_sep_props(s, from + 1);
    }
}

/// One rendered assignment line: the two cell indices in decimal, then the
/// region id, separated by single separator bytes.
pub open spec fn line_rep(x: nat, y: nat, id: Seq<u8>) -> Seq<u8> {
    dec_rep(x) + seq![FIELD_SEP] + dec_rep(y) + seq![FIELD_SEP] + id
}

/// The parsed form of one assignment line: the first field as `x`, the
/// second as `y`, the third as the region id; further fields are ignored,
/// and a line with fewer than three fields or a malformed numeric field is
/// rejected.
pub open spec fn parse_line_spec(s: Seq<u8>) -> Option<(nat, nat, Seq<u8>)> {
    let i1 = find_sep(s, 0);
    let i2 = find_sep(s, i1 + 1);
    if i1 >= s.len() || i2 >= s.len() {
        None
    } else {
        let t0 = s.subrange(0, i1);
        let t1 = s.subrange(i1 + 1, i2);
        let id = s.subrange(i2 + 1, find_sep(s, i2 + 1));
        if token_val_ok(t0) && token_val_ok(t1) {
            Some((dec_val(t0), dec_val(t1), id))
        } else {
            None
        }
    }
}

/// Renders the decimal digits of a cell index.
pub fn render_usize(n: usize) -> (r: Vec<u8>)
    ensures
        r@ == dec_rep(n as nat),
    decreases n,
{
    if n < 10 {
        let mut v: Vec<u8> = Vec::new();
        v.push(48 + n as u8);
        proof {
            assert(v@ =~= dec_rep(n as nat));
        }
        v
    } else {
        let mut v = render_usize(n / 10);
        v.push(48 + (n % 10) as u8);
        v
    }
}

/// Renders one assignment line for cell `(x, y)` and a region id.
pub fn render_assignment(x: usize, y: usize, id: &Vec<u8>) -> (r: Vec<u8>)
    ensures
        r@ == line_rep(x as nat, y as nat, id@),
{
    let mut r = render_usize(x);
    r.push(FIELD_SEP);
    let mut ry = render_usize(y);
    let mut i: usize = 0;
    while i < ry.len()
        invariant
            i <= ry@.len(),
            ry@ == dec_rep(y as nat),
            r@ == dec_rep(x as nat) + seq![FIELD_SEP] + ry@.subrange(0, i as int),
        decreases ry@.len() - i,
    {
        r.push(ry[i]);
        proof {
            assert(ry@.subrange(0, i + 1) =~= ry@.subrange(0, i as int).push(ry@[i as int]));
            assert(r@ =~= dec_rep(x as nat) + seq![FIELD_SEP] + ry@.subrange(0, i + 1));
        }
        i = i + 1;
    }
    proof {
        assert(ry@.subrange(0, ry@.len() as int) =~= ry@);
    }
    r.push(FIELD_SEP);
    let mut k: usize = 0;
    proof {
        assert(r@ =~= dec_rep(x as nat) + seq![FIELD_SEP] + dec_rep(y as nat) + seq![FIELD_SEP]
            + id@.subrange(0, 0));
    }
    while k < id.len()
        invariant
            k <= id@.len(),
            r@ == dec_rep(x as nat) + seq![FIELD_SEP] + dec_rep(y as nat) + seq![FIELD_SEP]
                + id@.subrange(0, k as int),
        decreases id@.len() - k,
    {
        r.push(id[k]);
        proof {
            assert(id@.subrange(0, k + 1) =~= id@.subrange(0, k as int).push(id@[k as int]));
            assert(r@ =~= dec_rep(x as nat) + seq![FIELD_SEP] + dec_rep(y as nat) + seq![FIELD_SEP]
                + id@.subrange(0, k + 1));
        }
        k = k + 1;
    }
    proof {
        assert(id@.subrange(0, id@.len() as int) =~= id@);
    }
    r
}


/// First separator at or after `from`, or the line length.
fn find_sep_from(line: &Vec<u8>, from: usize) -> (r: usize)
    requires
        from <= line@.len(),
    ensures
        r == find_sep(line@, from as int),
        from <= r <= line@.len(),
{
    let mut i = from;
    while i < line.len() && line[i] != FIELD_SEP
        invariant
            from <= i <= line@.len(),
            forall|k: int| from <= k < i ==> #[trigger] line@[k] != FIELD_SEP,
        decreases line@.len() - i,
    {
        i = i + 1;
    }
    proof {
        lemma_find_sep_at(line@, from as int, i as int);
    }
    i
}

/// Parses the numeric field `line[start..end]` the way the standard integer
/// parser does: non-empty, all digits, value within the index type.
fn parse_token(line: &Vec<u8>, start: usize, end: usize) -> (r: Option<usize>)
    requires
        start <= end <= line@.len(),
    ensures
        r.is_some() <==> token_val_ok(line@.subrange(start as int, end as int)),
        r.is_some() ==> r.unwrap() as nat == dec_val(line@.subrange(start as int, end as int)),
{
    let ghost tok = line@.subrange(start as int, end as int);
    if start == end {
        return None;
    }
    let mut acc: u128 = 0;
    let mut i = start;
    while i < end
        invariant
            start <= i <= end,
            end <= line@.len(),
            tok == line@.subrange(start as int, end as int),
            forall|k: int| start <= k < i ==> 48 <= #[trigger] line@[k] <= 57,
            acc <= usize::MAX as u128,
            acc as nat == dec_val(line@.subrange(start as int, i as int)),
        decreases end - i,
    {
        let b = line[i];
        if b < 48 || b > 57 {
            proof {
                assert(tok[i - start] == line@[i as int]);
                assert(!digits_ok(tok));
            }
            return None;
        }
        acc = acc * 10 + ((b - 48) as u128);
        proof {
            let pre = line@.subrange(start as int, i as int);
            let cur = line@.subrange(start as int, i + 1);
            assert(cur.drop_last() =~= pre);
            assert(cur[cur.len() - 1] == line@[i as int]);
        }
        if acc > (usize::MAX as u128) {
            proof {
                assert(line@.subrange(start as int, i + 1) =~= tok.subrange(0, i + 1 - start));
                lemma_dec_val_prefix_le(tok, i + 1 - start);
                assert(!token_val_ok(tok));
            }
            return None;
        }
        i = i + 1;
    }
    proof {
        assert(tok =~= line@.subrange(start as int, i as int));
        assert forall|k: int| 0 <= k < tok.len() implies 48 <= #[trigger] tok[k] <= 57 by {
            assert(tok[k] == line@[start + k]);
        }
        assert(token_val_ok(tok));
    }
    Some(acc as usize)
}

/// Parses one assignment line into the cell indices and the region id, or
/// rejects it when it has fewer than three fields or a malformed number.
pub fn parse_assignment(line: &Vec<u8>) -> (r: Option<(usize, usize, Vec<u8>)>)
    ensures
        r.is_some() <==> parse_line_spec(line@).is_some(),
        r.is_some() ==> {
            let (x, y, id) = parse_line_spec(line@).unwrap();
            r.unwrap().0 as nat == x && r.unwrap().1 as nat == y && r.unwrap().2@ == id
        },
{
    proof {
        lemma_find_sep_props(line@, 0);
    }
    let i1 = find_sep_from(line, 0);
    if i1 == line.len() {
        return None;
    }
    proof {
        lemma_find_sep_props(line@, i1 + 1);
    }
    let i2 = find_sep_from(line, i1 + 1);
    if i2 == line.len() {
        return None;
    }
    let x = match parse_token(line, 0, i1) {
        Some(v) => v,
        None => {
            return None;
        },
    };
    let y = match parse_token(line, i1 + 1, i2) {
        Some(v) => v,
        None => {
            return None;
        },
    };
    proof {
        lemma_find_sep_props(line@, i2 + 1);
    }
    let i3 = find_sep_from(line, i2 + 1);
    let mut id: Vec<u8> = Vec::new();
    let mut k = i2 + 1;
    while k < i3
        invariant
            i2 + 1 <= k <= i3,
            i3 <= line@.len(),
            id@ == line@.subrange(i2 + 1, k as int),
        decreases i3 - k,
    {
        id.push(line[k]);
        proof {
            assert(line@.subrange(i2 + 1, k + 1) =~= line@.subrange(i2 + 1, k as int).push(
                line@[k as int],
            ));
        }
        k = k + 1;
    }
    Some((x, y, id))
}

/// Round trip of the line format: a rendered assignment, parsed back, gives
/// exactly the cell and the region id that were written, whatever the id
/// bytes are, as long as they hold no separator.
pub proof fn lemma_line_round_trip(x: usize, y: usize, id: Seq<u8>)
    requires
        forall|k: int| 0 <= k < id.len() ==> #[trigger] id[k] != FIELD_SEP,
    ensures
        parse_line_spec(line_rep(x as nat, y as nat, id)) == Some((x as nat, y as nat, id)),
{
    let s = line_rep(x as nat, y as nat, id);
    let dx = dec_rep(x as nat);
    let dy = dec_rep(y as nat);
    lemma_dec_rep_digits(x as nat);
    lemma_dec_rep_digits(y as nat);
    lemma_dec_rep_val(x as nat);
    lemma_dec_rep_val(y as nat);
    let i1 = dx.len() as int;
    let i2 = i1 + 1 + dy.len() as int;
    assert(s.len() == dx.len() + 1 + dy.len() + 1 + id.len());
    assert forall|k: int| 0 <= k < i1 implies #[trigger] s[k] != FIELD_SEP by {
        assert(s[k] == dx[k]);
    }
    assert(s[i1] == FIELD_SEP);
    lemma_find_sep_at(s, 0, i1);
    assert forall|k: int| i1 + 1 <= k < i2 implies #[trigger] s[k] != FIELD_SEP by {
        assert(s[k] == dy[k - (i1 + 1)]);
    }
    assert(s[i2] == FIELD_SEP);
    lemma_find_sep_at(s, i1 + 1, i2);
    assert forall|k: int| i2 + 1 <= k < s.len() implies #[trigger] s[k] != FIELD_SEP by {
        assert(s[k] == id[k - (i2 + 1)]);
    }
    lemma_find_sep_at(s, i2 + 1, s.len() as int);
    assert(s.subrange(0, i1) =~= dx);
    assert(s.subrange(i1 + 1, i2) =~= dy);
    assert(s.subrange(i2 + 1, s.len() as int) =~= id);
    assert(token_val_ok(dx));
    assert(token_val_ok(dy));
}

} // verus!
