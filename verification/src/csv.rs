use vstd::prelude::*;
use vstd::string::{StrSliceExecFns, StringExecFns};
use crate::text::{
    all_ws, chars_of, decimal_string, find_char, find_in, is_digit, is_ws, lemma_decimal_string,
    lemma_find_char_at, lemma_parse_decimal, lemma_trim_end_ws_suffix, lemma_trim_fixed,
    lemma_trim_padded, parse_u32_in, parse_u32_spec, trim, trim_bounds, trim_start,
};

verus! {

/// The outcome of a line of the batch file split into its three columns,
/// before the path gets trimmed and the quantity gets parsed: `(path, rest)`.
pub open spec fn split_path(t: Seq<char>) -> Result<(Seq<char>, Seq<char>), Seq<char>> {
    if t[0] == '"' {
        match find_char(t.drop_first(), '"') {
            None => Err("Mismatched double quotes in image path"@),
            Some(q) => {
                let after = t.subrange(q + 2, t.len() as int);
                match find_char(after, ',') {
                    None => Err("Missing quantity and arguments after image path"@),
                    Some(c) => Ok((t.subrange(1, q + 1), after.subrange(c + 1, after.len() as int))),
                }
            },
        }
    } else {
        match find_char(t, ',') {
            None => Err("Missing comma after image path"@),
            Some(c) => Ok((t.subrange(0, c), t.subrange(c + 1, t.len() as int))),
        }
    }
}

/// `rest` split at its first comma into the quantity and the arguments; the
/// arguments are empty where there is no comma.
pub open spec fn split_quantity(rest: Seq<char>) -> (Seq<char>, Seq<char>) {
    match find_char(rest, ',') {
        Some(i) => (rest.subrange(0, i), rest.subrange(i + 1, rest.len() as int)),
        None => (rest, Seq::empty()),
    }
}

/// What a line `<image_path>, <quantity>, <arguments>` of the batch file
/// holds: the trimmed path, the quantity and the trimmed arguments, or
/// the reason the line is malformed.
pub open spec fn spec_parse_csv_line(line: Seq<char>) -> Result<(Seq<char>, u32, Seq<char>), Seq<char>> {
    let t = trim(line);
    if t.len() == 0 {
        Err("Empty line"@)
    } else {
        match split_path(t) {
            Err(m) => Err(m),
            Ok((path, rest)) => {
                let (qty, args) = split_quantity(rest);
                match parse_u32_spec(trim(qty)) {
                    None => Err("Invalid quantity: '"@ + trim(qty) + "'"@),
                    Some(n) => Ok((trim(path), n, trim(args))),
                }
            },
        }
    }
}

/// White space before and after a line never changes what it parses to.
pub proof fn lemma_parse_ignores_outer_space(w1: Seq<char>, line: Seq<char>, w2: Seq<char>)
    requires
        all_ws(w1),
        all_ws(w2),
    ensures
        spec_parse_csv_line(w1 + line + w2) == spec_parse_csv_line(line),
{
    lemma_trim_padded(w1, line, w2);
}

/// What follows the path's comma in a line written as `path, q, a`: the
/// space, the numeral, the comma and what the arguments leave after
/// trimming.
spec fn written_rest(q: u32, a: Seq<char>) -> Seq<char> {
    seq![' '] + decimal_string(q as nat) + seq![','] + if a.len() > 0 {
        seq![' '] + a
    } else {
        Seq::empty()
    }
}

proof fn lemma_written_rest(q: u32, a: Seq<char>)
    requires
        trim(a) == a,
    ensures
        ({
            let (qty, args) = split_quantity(written_rest(q, a));
            &&& parse_u32_spec(trim(qty)) == Some(q)
            &&& trim(args) == a
        }),
{
    let dq = decimal_string(q as nat);
    let tail: Seq<char> = if a.len() > 0 {
        seq![' '] + a
    } else {
        Seq::empty()
    };
    let head = seq![' '] + dq;
    let r = written_rest(q, a);
    lemma_decimal_string(q as nat);
    lemma_parse_decimal(q);
    assert(r =~= head + seq![','] + tail);
    assert forall|i: int| 0 <= i < head.len() implies head[i] != ',' by {
        if i > 0 {
            assert(head[i] == dq[i - 1]);
            assert(is_digit(dq[i - 1]));
        }
    }
    lemma_find_char_at(head, ',', tail);
    assert(r.subrange(0, head.len() as int) =~= head);
    assert(r.subrange(head.len() + 1int, r.len() as int) =~= tail);
    let sp = seq![' '];
    assert(all_ws(sp)) by {
        assert(sp[0] == ' ');
    }
    assert(all_ws(Seq::<char>::empty()));
    lemma_trim_padded(sp, dq, Seq::empty());
    assert(sp + dq + Seq::<char>::empty() =~= head);
    assert(is_digit(dq[0]) && is_digit(dq.last()));
    assert(trim_start(dq) == dq);
    assert(trim(dq) == dq);
    if a.len() > 0 {
        lemma_trim_padded(sp, a, Seq::empty());
        assert(sp + a + Seq::<char>::empty() =~= tail);
    } else {
        assert(a =~= Seq::<char>::empty());
    }
}

/// A written line ends as its rest does: trimming it only drops the space
/// before empty arguments.
proof fn lemma_trim_written(pre: Seq<char>, q: u32, a: Seq<char>)
    requires
        pre.len() > 0 ==> !is_ws(pre[0]),
        trim(a) == a,
    ensures
        trim(pre + seq![','] + seq![' '] + decimal_string(q as nat) + seq![',', ' '] + a) == pre
            + seq![','] + written_rest(q, a),
{
    let dq = decimal_string(q as nat);
    let line = pre + seq![','] + seq![' '] + dq + seq![',', ' '] + a;
    let t = pre + seq![','] + written_rest(q, a);
    lemma_decimal_string(q as nat);
    lemma_trim_fixed(a);
    assert(!is_ws(line[0])) by {
        if pre.len() > 0 {
            assert(line[0] == pre[0]);
        } else {
            assert(line[0] == ',');
        }
    }
    assert(trim_start(line) == line);
    if a.len() > 0 {
        assert(line =~= t);
        assert(line.last() == a.last());
    } else {
        let sp = seq![' '];
        assert(all_ws(sp)) by {
            assert(sp[0] == ' ');
        }
        assert(line =~= t + sp);
        lemma_trim_end_ws_suffix(t, sp);
        assert(t.last() == ',');
    }
}

/// A line written as `path, quantity, arguments` parses back to them,
/// where the path and the arguments are trimmed, the path holds no comma
/// and does not start with a double quote; the arguments may hold commas,
/// spaces and quotes.
pub proof fn lemma_parse_round_trip(p: Seq<char>, q: u32, a: Seq<char>)
    requires
        trim(p) == p,
        trim(a) == a,
        forall|i: int| 0 <= i < p.len() ==> p[i] != ',',
        p.len() > 0 ==> p[0] != '"',
    ensures
        spec_parse_csv_line(p + seq![',', ' '] + decimal_string(q as nat) + seq![',', ' '] + a)
            == Ok::<(Seq<char>, u32, Seq<char>), Seq<char>>((p, q, a)),
{
    let dq = decimal_string(q as nat);
    let r = written_rest(q, a);
    let pre = p + seq![','];
    let line = p + seq![',', ' '] + dq + seq![',', ' '] + a;
    lemma_trim_fixed(p);
    assert(pre[0] != '"' && !is_ws(pre[0])) by {
        if p.len() > 0 {
            assert(pre[0] == p[0]);
        }
    }
    assert(line =~= p + seq![','] + seq![' '] + dq + seq![',', ' '] + a);
    let t = p + seq![','] + r;
    lemma_trim_written(p, q, a);
    assert(trim(line) == t);
    lemma_find_char_at(p, ',', r);
    assert(t.subrange(0, p.len() as int) =~= p);
    assert(t.subrange(p.len() + 1int, t.len() as int) =~= r);
    lemma_written_rest(q, a);
}

/// A line written as `"path", quantity, arguments` parses back to the
/// trimmed path, the quantity and the arguments, where the path holds no
/// double quote (it may hold commas and spaces) and the arguments are
/// trimmed.
pub proof fn lemma_parse_round_trip_quoted(p: Seq<char>, q: u32, a: Seq<char>)
    requires
        trim(a) == a,
        forall|i: int| 0 <= i < p.len() ==> p[i] != '"',
    ensures
        spec_parse_csv_line(
            seq!['"'] + p + seq!['"', ',', ' '] + decimal_string(q as nat) + seq![',', ' '] + a,
        ) == Ok::<(Seq<char>, u32, Seq<char>), Seq<char>>((trim(p), q, a)),
{
    let dq = decimal_string(q as nat);
    let r = written_rest(q, a);
    let pre = seq!['"'] + p + seq!['"'];
    let line = seq!['"'] + p + seq!['"', ',', ' '] + dq + seq![',', ' '] + a;
    assert(line =~= pre + seq![','] + seq![' '] + dq + seq![',', ' '] + a);
    assert(pre[0] == '"');
    lemma_trim_written(pre, q, a);
    let t = pre + seq![','] + r;
    assert(trim(line) == t);
    assert(t[0] == '"');
    let after = seq![','] + r;
    assert(t.drop_first() =~= p + seq!['"'] + after);
    lemma_find_char_at(p, '"', after);
    assert(t.subrange(p.len() + 2int, t.len() as int) =~= after);
    assert(Seq::<char>::empty() + seq![','] + r =~= after);
    lemma_find_char_at(Seq::<char>::empty(), ',', r);
    assert(after.subrange(1, after.len() as int) =~= r);
    assert(t.subrange(1, p.len() + 1int) =~= p);
    lemma_written_rest(q, a);
}

/// The bounds `(p0, p1, r0)` in `cs` of the path `cs[p0..p1]` and of
/// what follows its comma, `cs[r0..t1]`, for the trimmed line `cs[t0..t1]`.
fn split_path_bounds(cs: &Vec<char>, t0: usize, t1: usize) -> (res: Result<
    (usize, usize, usize),
    String,
>)
    requires
        t0 < t1 <= cs.len(),
    ensures
        match (res, split_path(cs@.subrange(t0 as int, t1 as int))) {
            (Ok((p0, p1, r0)), Ok((path, rest))) => {
                &&& t0 <= p0 <= p1 <= t1
                &&& p1 < r0 <= t1
                &&& path == cs@.subrange(p0 as int, p1 as int)
                &&& rest == cs@.subrange(r0 as int, t1 as int)
            },
            (Err(e), Err(m)) => e@ == m,
            _ => false,
        },
{
    let ghost t = cs@.subrange(t0 as int, t1 as int);
    if cs[t0] == '"' {
        assert(t.drop_first() =~= cs@.subrange(t0 + 1, t1 as int));
        let q = match find_in(cs, t0 + 1, t1, '"') {
            Some(q) => q,
            None => {
                return Err(String::from_str("Mismatched double quotes in image path"));
            },
        };
        let ghost qi = q - (t0 + 1);
        assert(t.subrange(qi + 2, t.len() as int) =~= cs@.subrange(q + 1, t1 as int));
        assert(t.subrange(1, qi + 1) =~= cs@.subrange(t0 + 1, q as int));
        let c = match find_in(cs, q + 1, t1, ',') {
            Some(c) => c,
            None => {
                return Err(String::from_str("Missing quantity and arguments after image path"));
            },
        };
        let ghost after = cs@.subrange(q + 1, t1 as int);
        assert(after.subrange(c - q, after.len() as int) =~= cs@.subrange(c + 1, t1 as int));
        Ok((t0 + 1, q, c + 1))
    } else {
        let c = match find_in(cs, t0, t1, ',') {
            Some(c) => c,
            None => {
                return Err(String::from_str("Missing comma after image path"));
            },
        };
        assert(t.subrange(0, c - t0) =~= cs@.subrange(t0 as int, c as int));
        assert(t.subrange(c - t0 + 1, t.len() as int) =~= cs@.subrange(c + 1, t1 as int));
        Ok((t0, c, c + 1))
    }
}

/// The bounds `(q0, q1, a0, a1)` in `cs` of the quantity and of the
/// arguments within `cs[r0..t1]`.
fn split_quantity_bounds(cs: &Vec<char>, r0: usize, t1: usize) -> (res: (
    usize,
    usize,
    usize,
    usize,
))
    requires
        r0 <= t1 <= cs.len(),
    ensures
        r0 <= res.0 <= res.1 <= t1,
        res.2 <= res.3 <= t1,
        split_quantity(cs@.subrange(r0 as int, t1 as int)) == (
            cs@.subrange(res.0 as int, res.1 as int),
            cs@.subrange(res.2 as int, res.3 as int),
        ),
{
    let ghost rest = cs@.subrange(r0 as int, t1 as int);
    match find_in(cs, r0, t1, ',') {
        Some(i) => {
            assert(rest.subrange(0, i - r0) =~= cs@.subrange(r0 as int, i as int));
            assert(rest.subrange(i - r0 + 1, rest.len() as int) =~= cs@.subrange(
                i + 1,
                t1 as int,
            ));
            (r0, i, i + 1, t1)
        },
        None => {
            assert(cs@.subrange(t1 as int, t1 as int) =~= Seq::<char>::empty());
            assert(cs@.subrange(r0 as int, t1 as int) == rest);
            (r0, t1, t1, t1)
        },
    }
}

/// Splits a line of the batch file into the image path, the quantity and
/// the command-line arguments of that sticker.
pub fn parse_csv_line(line: &str) -> (res: Result<(String, u32, String), String>)
    ensures
        match (res, spec_parse_csv_line(line@)) {
            (Ok((p, n, a)), Ok((sp, sn, sa))) => p@ == sp && n == sn && a@ == sa,
            (Err(e), Err(m)) => e@ == m,
            _ => false,
        },
{
    let cs = chars_of(line);
    let n = cs.len();
    let (t0, t1) = trim_bounds(&cs, 0, n);
    assert(cs@.subrange(0, n as int) =~= line@);
    if t0 == t1 {
        return Err(String::from_str("Empty line"));
    }
    let (p0, p1, r0) = match split_path_bounds(&cs, t0, t1) {
        Ok(b) => b,
        Err(e) => {
            return Err(e);
        },
    };
    let (q0, q1, a0, a1) = split_quantity_bounds(&cs, r0, t1);
    let (pa, pb) = trim_bounds(&cs, p0, p1);
    let (qa, qb) = trim_bounds(&cs, q0, q1);
    let (aa, ab) = trim_bounds(&cs, a0, a1);
    match parse_u32_in(&cs, qa, qb) {
        None => {
            let mut msg = String::from_str("Invalid quantity: '");
            msg.append(line.substring_char(qa, qb));
            msg.append("'");
            Err(msg)
        },
        Some(qty) => {
            let path = String::from_str(line.substring_char(pa, pb));
            let args = String::from_str(line.substring_char(aa, ab));
            Ok((path, qty, args))
        },
    }
}

/// Whether a line of the batch file holds no sticker: it is blank, or a
/// comment that starts with `#`.
pub fn is_skipped_row(line: &str) -> (res: bool)
    ensures
        res == (trim(line@).len() == 0 || trim(line@)[0] == '#'),
{
    let cs = chars_of(line);
    let (a, b) = trim_bounds(&cs, 0, cs.len());
    assert(cs@.subrange(0, cs.len() as int) =~= line@);
    a == b || cs[a] == '#'
}

} // verus!
