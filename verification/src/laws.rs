//! Library-wide guarantees, stated and proved over the public specifications.

use crate::record::parse_block;
use crate::record::parse_floats;
use crate::record::parse_rows;
use crate::record::ConfigurationV;
use crate::record::ErrField;
use crate::record::TrajErrorV;
use crate::scan::lemma_line_end;
use crate::scan::lemma_line_end_is;
use crate::scan::lemma_next_marker;
use crate::scan::lemma_next_marker_idem;
use crate::scan::line_end;
use crate::scan::lines_between;
use crate::scan::next_marker;
use crate::scan::scan_spec;
use crate::serialize::header_line;
use crate::serialize::serialize_lines;
use crate::serialize::serialize_text;
use crate::serialize::u64_dec;
use crate::serialize::unlines;
use crate::text::find_byte;
use crate::text::is_ws;
use crate::text::join_sp;
use crate::text::lemma_find2_is;
use crate::text::lemma_first_non_ws_is;
use crate::text::lemma_last_non_ws_end_is;
use crate::text::lemma_split_join;
use crate::text::split_sp;
use crate::text::trim_spec;
use crate::tokens::all_digits;
use crate::tokens::dec_value;
use crate::tokens::is_digit;
use crate::tokens::is_float_token;
use crate::tokens::is_u64_token;
use crate::tokens::lemma_float_token_bytes;
use crate::tokens::strip_plus;
use vstd::prelude::*;

verus! {

/// How many blocks a scan from `off` can ever find.
pub open spec fn count_blocks(data: Seq<u8>, off: int) -> nat
    decreases data.len() - off,
    via count_blocks_decreases
{
    let p = next_marker(data, off);
    if p == data.len() {
        0
    } else {
        1 + count_blocks(data, next_marker(data, line_end(data, p)))
    }
}

#[via_fn]
proof fn count_blocks_decreases(data: Seq<u8>, off: int) {
    let p = next_marker(data, off);
    if p != data.len() {
        assert(0 <= off <= data.len());
        lemma_next_marker(data, off);
        lemma_line_end(data, p);
        lemma_next_marker(data, line_end(data, p));
    }
}

/// Bounded read: a scan returns exactly `min(limit, N)` blocks, where `N` is
/// the number of blocks at or after `off`.
pub proof fn lemma_scan_len(data: Seq<u8>, off: int, limit: int)
    requires
        limit >= 0,
    ensures
        scan_spec(data, off, limit).len() == if limit <= count_blocks(data, off) {
            limit as nat
        } else {
            count_blocks(data, off)
        },
    decreases limit,
{
    if limit > 0 && off >= 0 {
        let p = next_marker(data, off);
        if p != data.len() {
            let e = next_marker(data, line_end(data, p));
            lemma_scan_len(data, e, limit - 1);
        }
    } else if limit > 0 && off < 0 {
        assert(next_marker(data, off) == data.len());
    }
}

/// Every scanned block starts at or after the scan offset, ends strictly
/// after it starts, and the next block starts at or after the previous end:
/// the returned end offsets are strictly increasing.
pub proof fn lemma_offsets_increasing(data: Seq<u8>, off: int, limit: int)
    ensures
        ({
            let sc = scan_spec(data, off, limit);
            &&& forall|k: int| 0 <= k < sc.len() ==> off <= (#[trigger] sc[k]).0 < sc[k].1
            &&& forall|k: int| 0 <= k < sc.len() - 1 ==> (#[trigger] sc[k]).1 <= sc[k + 1].0
        }),
    decreases limit,
{
    let sc = scan_spec(data, off, limit);
    if limit <= 0 || off < 0 {
    } else {
        let p = next_marker(data, off);
        if p == data.len() {
        } else {
            lemma_next_marker(data, off);
            lemma_line_end(data, p);
            lemma_next_marker(data, line_end(data, p));
            let e = next_marker(data, line_end(data, p));
            lemma_offsets_increasing(data, e, limit - 1);
            let rest = scan_spec(data, e, limit - 1);
            assert forall|k: int| 0 <= k < sc.len() implies off <= (#[trigger] sc[k]).0
                < sc[k].1 by {
                if k > 0 {
                    assert(sc[k] == rest[k - 1]);
                }
            }
            assert forall|k: int| 0 <= k < sc.len() - 1 implies (#[trigger] sc[k]).1 <= sc[k
                + 1].0 by {
                if k > 0 {
                    assert(sc[k] == rest[k - 1]);
                    assert(sc[k + 1] == rest[k]);
                }
                if k == 0 && sc.len() > 1 {
                    assert(sc[1] == rest[0]);
                }
            }
        }
    }
}

/// Offset chaining: resuming a scan at the end offset of block `k` finds
/// exactly the blocks that followed it.
pub proof fn lemma_scan_resume(data: Seq<u8>, off: int, limit: int, k: int)
    requires
        0 <= k < scan_spec(data, off, limit).len(),
    ensures
        scan_spec(data, scan_spec(data, off, limit)[k].1, limit - k - 1) == scan_spec(
            data,
            off,
            limit,
        ).skip(k + 1),
    decreases k,
{
    let sc = scan_spec(data, off, limit);
    let p = next_marker(data, off);
    let e = next_marker(data, line_end(data, p));
    let rest = scan_spec(data, e, limit - 1);
    assert(sc == seq![(p, e)] + rest);
    if k == 0 {
        assert(sc[0].1 == e);
        assert(sc.skip(1) =~= rest);
    } else {
        assert(sc[k] == rest[k - 1]);
        lemma_scan_resume(data, e, limit - 1, k - 1);
        assert(rest.skip(k) =~= sc.skip(k + 1));
    }
}

/// Resuming with a budget of one block yields exactly the next block.
pub proof fn lemma_scan_resume_next(data: Seq<u8>, off: int, limit: int, k: int)
    requires
        0 <= k,
        k + 1 < scan_spec(data, off, limit).len(),
    ensures
        scan_spec(data, scan_spec(data, off, limit)[k].1, 1) == seq![
            scan_spec(data, off, limit)[k + 1],
        ],
{
    let sc = scan_spec(data, off, limit);
    lemma_scan_resume(data, off, limit, k);
    let tail = scan_spec(data, sc[k].1, limit - k - 1);
    assert(tail == sc.skip(k + 1));
    assert(tail.len() > 0);
    assert(tail[0] == sc[k + 1]);
    let p = next_marker(data, sc[k].1);
    assert(p != data.len());
    let e = next_marker(data, line_end(data, p));
    assert(tail[0] == (p, e));
    assert(scan_spec(data, e, 0) =~= Seq::<(int, int)>::empty());
    assert(scan_spec(data, sc[k].1, 1) =~= seq![(p, e)]);
}

/// A successful fold returns one record per scanned block.
proof fn lemma_fold_len(data: Seq<u8>, sc: Seq<(int, int)>)
    requires
        crate::first_parse_error(data, sc) is Ok,
    ensures
        crate::first_parse_error(data, sc)->Ok_0.len() == sc.len(),
    decreases sc.len(),
{
    if sc.len() > 0 {
        lemma_fold_len(data, sc.skip(1));
    }
}

/// Bounded read at the decode level: a successful decode returns exactly
/// `min(limit, N)` records, where `N` is the number of blocks at or after
/// `off`.
pub proof fn lemma_read_confs_len(data: Seq<u8>, off: int, limit: int)
    requires
        limit >= 0,
        crate::read_confs_spec(data, off, limit) is Ok,
    ensures
        crate::read_confs_spec(data, off, limit)->Ok_0.len() == if limit <= count_blocks(
            data,
            off,
        ) {
            limit as nat
        } else {
            count_blocks(data, off)
        },
{
    lemma_fold_len(data, scan_spec(data, off, limit));
    lemma_scan_len(data, off, limit);
}

/// The decimal digits of a number are nonempty digits.
pub proof fn lemma_u64_dec_digits(n: nat)
    ensures
        u64_dec(n).len() > 0,
        all_digits(u64_dec(n)),
    decreases n,
{
    if n < 10 {
        assert(is_digit(u64_dec(n)[0]));
    } else {
        lemma_u64_dec_digits(n / 10);
        let w = u64_dec(n);
        assert forall|i: int| 0 <= i < w.len() implies is_digit(#[trigger] w[i]) by {
            if i < u64_dec(n / 10).len() {
                assert(w[i] == u64_dec(n / 10)[i]);
            } else {
                assert(w[i] == (48 + n % 10) as u8);
            }
        }
    }
}

/// Reading the decimal digits of a number back gives the number.
pub proof fn lemma_u64_dec_value(n: nat)
    ensures
        dec_value(u64_dec(n)) == n,
    decreases n,
{
    if n < 10 {
        assert(u64_dec(n) == seq![(48 + n) as u8]);
        assert(u64_dec(n).drop_last() =~= Seq::<u8>::empty());
        assert(dec_value(Seq::<u8>::empty()) == 0);
        assert(u64_dec(n).last() == (48 + n) as u8);
        assert(is_digit((48 + n) as u8));
        assert(dec_value(u64_dec(n)) == 0 * 10 + ((48 + n) as u8 - 48) as nat);
    } else {
        lemma_u64_dec_value(n / 10);
        lemma_u64_dec_digits(n / 10);
        let w = u64_dec(n);
        assert(w.drop_last() =~= u64_dec(n / 10));
        assert(w.last() == (48 + n % 10) as u8);
        assert(dec_value(w) == dec_value(u64_dec(n / 10)) * 10 + n % 10);
    }
}

/// Joining well-formed numeric tokens: the text is nonempty, opens and closes
/// with a token byte (never whitespace or the marker), and holds no line
/// feed, tab, carriage return or `=` anywhere.
pub proof fn lemma_join_tokens(ts: Seq<Seq<u8>>)
    requires
        ts.len() > 0,
        forall|i: int| 0 <= i < ts.len() ==> is_float_token(#[trigger] ts[i]),
    ensures
        join_sp(ts).len() > 0,
        join_sp(ts)[0] == ts[0][0],
        join_sp(ts).last() == ts.last().last(),
        !is_ws(join_sp(ts)[0]),
        join_sp(ts)[0] != 116,
        !is_ws(join_sp(ts).last()),
        forall|q: int|
            0 <= q < join_sp(ts).len() ==> #[trigger] join_sp(ts)[q] != 10 && join_sp(ts)[q] != 61,
    decreases ts.len(),
{
    lemma_float_token_bytes(ts[0]);
    if ts.len() == 1 {
        assert(join_sp(ts) == ts[0]);
        assert(ts.last() == ts[0]);
    } else {
        let j = join_sp(ts);
        let h = ts[0];
        let rest = join_sp(ts.skip(1));
        assert(j == h + seq![32u8] + rest);
        assert forall|i: int| 0 <= i < ts.skip(1).len() implies is_float_token(
            #[trigger] ts.skip(1)[i],
        ) by {
            assert(ts.skip(1)[i] == ts[i + 1]);
        }
        lemma_join_tokens(ts.skip(1));
        assert(j[0] == h[0]);
        assert(ts.skip(1)[0] == ts[1]);
        assert(ts.skip(1).last() == ts.last());
        assert(j.last() == rest.last());
        assert forall|q: int| 0 <= q < j.len() implies #[trigger] j[q] != 10 && j[q] != 61 by {
            if q < h.len() {
                assert(j[q] == h[q]);
            } else if q == h.len() {
                assert(j[q] == 32);
            } else {
                assert(j[q] == rest[q - h.len() - 1]);
            }
        }
    }
}

/// A serialized header line parses back to exactly its value.
pub proof fn lemma_header_line_rt(line: Seq<u8>, prefix: u8, value: Seq<u8>)
    requires
        line == seq![prefix, 32u8, 61u8, 32u8] + value + seq![10u8],
        prefix != 61,
        value.len() > 0,
        !is_ws(value[0]),
        !is_ws(value.last()),
        forall|q: int| 0 <= q < value.len() ==> #[trigger] value[q] != 61 && value[q] != 10,
    ensures
        line.len() > 0,
        line[0] == prefix,
        find_byte(line, 61) == 2,
        trim_spec(line.skip(3).take(find_byte(line.skip(3), 61))) == value,
{
    assert(line.len() == value.len() + 5);
    assert(line[0] == prefix && line[1] == 32 && line[2] == 61 && line[3] == 32);
    assert forall|q: int| 4 <= q < line.len() - 1 implies line[q] == value[q - 4] by {}
    assert(line.last() == 10);
    lemma_find2_is(line, 61, 61, 2);
    let rest = line.skip(3);
    assert(rest =~= seq![32u8] + value + seq![10u8]);
    assert(rest[0] == 32);
    assert forall|q: int| 1 <= q < rest.len() - 1 implies rest[q] == value[q - 1] by {}
    assert(rest.len() == value.len() + 2);
    assert(rest[rest.len() - 1] == 10);
    lemma_find2_is(rest, 61, 61, rest.len() as int);
    assert(rest.take(rest.len() as int) =~= rest);
    lemma_first_non_ws_is(rest, 1);
    lemma_last_non_ws_end_is(rest, rest.len() - 1);
    assert(trim_spec(rest) =~= value);
}

/// A serialized particle row parses back to exactly its tokens.
pub proof fn lemma_row_line_rt(row: Seq<Seq<u8>>)
    requires
        row.len() == 15,
        forall|j: int| 0 <= j < row.len() ==> is_float_token(#[trigger] row[j]),
    ensures
        parse_floats(trim_spec(join_sp(row) + seq![10u8]), 15, ErrField::Nucleotide) == Ok::<
            Seq<Seq<u8>>,
            TrajErrorV,
        >(row),
{
    lemma_join_tokens(row);
    let j = join_sp(row);
    let line = j + seq![10u8];
    assert(line[0] == j[0]);
    assert(!is_ws(line[0]));
    lemma_first_non_ws_is(line, 0);
    assert(line[line.len() - 1] == 10);
    assert(line[line.len() - 2] == j.last());
    lemma_last_non_ws_end_is(line, line.len() - 1);
    assert(trim_spec(line) =~= j);
    assert forall|i: int, q: int| 0 <= i < row.len() && 0 <= q < row[i].len() implies #[trigger] row[i][q]
        != 32 by {
        lemma_float_token_bytes(row[i]);
    }
    lemma_split_join(row);
    assert(split_sp(j) == row);
}

/// Shifting `line_end` past a fixed prefix.
pub proof fn lemma_line_end_shift(a: Seq<u8>, b: Seq<u8>, i: int)
    requires
        0 <= i <= b.len(),
    ensures
        line_end(a + b, a.len() + i) == a.len() + line_end(b, i),
    decreases b.len() - i,
{
    if i < b.len() {
        assert((a + b)[a.len() + i] == b[i]);
        if b[i] != 10 {
            lemma_line_end_shift(a, b, i + 1);
        }
    }
}

/// Shifting `next_marker` past a fixed prefix.
pub proof fn lemma_next_marker_shift(a: Seq<u8>, b: Seq<u8>, i: int)
    requires
        0 <= i <= b.len(),
    ensures
        next_marker(a + b, a.len() + i) == a.len() + next_marker(b, i),
    decreases b.len() - i,
{
    if i < b.len() {
        assert((a + b)[a.len() + i] == b[i]);
        if b[i] != 116 {
            lemma_line_end_shift(a, b, i);
            lemma_line_end(b, i);
            lemma_next_marker_shift(a, b, line_end(b, i));
        }
    }
}

/// Shifting `lines_between` past a fixed prefix.
pub proof fn lemma_lines_between_shift(a: Seq<u8>, b: Seq<u8>, i: int, e: int)
    requires
        0 <= i <= e <= b.len(),
    ensures
        lines_between(a + b, a.len() + i, a.len() + e) == lines_between(b, i, e),
    decreases e - i,
{
    if i < e {
        lemma_line_end_shift(a, b, i);
        lemma_line_end(b, i);
        let le = line_end(b, i);
        let stop = if le <= e {
            le
        } else {
            e
        };
        assert((a + b).subrange(a.len() + i, a.len() + stop) =~= b.subrange(i, stop));
        lemma_lines_between_shift(a, b, stop, e);
    }
}

/// A text of marker-free lines after its first: one block spanning the whole
/// text, whose lines are exactly the source lines with their line feeds.
pub proof fn lemma_text_block(ls: Seq<Seq<u8>>)
    requires
        ls.len() > 0,
        forall|i: int, q: int| 0 <= i < ls.len() && 0 <= q < ls[i].len() ==> #[trigger] ls[i][q] != 10,
        forall|i: int| 1 <= i < ls.len() ==> (#[trigger] ls[i]).len() > 0 && ls[i][0] != 116,
    ensures
        line_end(unlines(ls), 0) == ls[0].len() as int + 1,
        next_marker(unlines(ls), ls[0].len() as int + 1) == unlines(ls).len(),
        lines_between(unlines(ls), 0, unlines(ls).len() as int) == ls.map_values(
            |l: Seq<u8>| l + seq![10u8],
        ),
    decreases ls.len(),
{
    let text = unlines(ls);
    let a = ls[0] + seq![10u8];
    let b = unlines(ls.skip(1));
    assert(text =~= a + b);
    assert(text.len() == ls[0].len() as int + 1 + b.len());
    assert forall|q: int| 0 <= q < ls[0].len() implies text[q] != 10 by {
        assert(text[q] == ls[0][q]);
    }
    assert(text[ls[0].len() as int] == 10);
    lemma_line_end_is(text, 0, ls[0].len() as int + 1);
    if ls.len() == 1 {
        assert(b =~= Seq::<u8>::empty());
        assert(text.len() == ls[0].len() as int + 1);
        assert(next_marker(text, text.len() as int) == text.len());
        assert(lines_between(text, 0, text.len() as int) == seq![
            text.subrange(0, ls[0].len() as int + 1),
        ] + lines_between(text, ls[0].len() as int + 1, text.len() as int));
        assert(text.subrange(0, ls[0].len() as int + 1) =~= ls[0] + seq![10u8]);
        assert(lines_between(text, text.len() as int, text.len() as int) =~= Seq::<Seq<u8>>::empty());
        assert(ls.map_values(|l: Seq<u8>| l + seq![10u8]) =~= seq![ls[0] + seq![10u8]]);
    } else {
        assert forall|i: int, q: int|
            0 <= i < ls.skip(1).len() && 0 <= q < ls.skip(1)[i].len() implies #[trigger] ls.skip(
            1,
        )[i][q] != 10 by {
            assert(ls.skip(1)[i] == ls[i + 1]);
        }
        assert forall|i: int| 1 <= i < ls.skip(1).len() implies (#[trigger] ls.skip(1)[i]).len() > 0
            && ls.skip(1)[i][0] != 116 by {
            assert(ls.skip(1)[i] == ls[i + 1]);
        }
        lemma_text_block(ls.skip(1));
        // The marker scan from the second line runs to the end of the text.
        assert(ls.skip(1)[0] == ls[1]);
        assert(b.len() > 0) by {
            assert(unlines(ls.skip(1)).len() >= ls.skip(1)[0].len() + 1) by {
                assert(b =~= (ls[1] + seq![10u8]) + unlines(ls.skip(1).skip(1)));
            }
        }
        assert(b[0] == ls[1][0]) by {
            assert(b =~= (ls[1] + seq![10u8]) + unlines(ls.skip(1).skip(1)));
        }
        assert(b[0] != 116);
        lemma_next_marker_shift(a, b, 0);
        assert(next_marker(b, 0) == next_marker(b, line_end(b, 0))) by {
            assert(0 < b.len() && b[0] != 116);
        }
        assert(line_end(b, 0) == ls.skip(1)[0].len() + 1);
        assert(next_marker(b, line_end(b, 0)) == b.len());
        assert(next_marker(text, a.len() as int) == a.len() + b.len());
        assert(next_marker(text, ls[0].len() as int + 1) == text.len());
        // The lines of the text are the first line plus the lines of the rest.
        assert(lines_between(text, 0, text.len() as int) == seq![
            text.subrange(0, ls[0].len() as int + 1),
        ] + lines_between(text, ls[0].len() as int + 1, text.len() as int)) by {
            lemma_line_end(text, 0);
        }
        assert(text.subrange(0, ls[0].len() as int + 1) =~= ls[0] + seq![10u8]);
        lemma_lines_between_shift(a, b, 0, b.len() as int);
        assert(lines_between(text, a.len() as int, text.len() as int) == lines_between(
            b,
            0,
            b.len() as int,
        ));
        assert(lines_between(b, 0, b.len() as int) == ls.skip(1).map_values(
            |l: Seq<u8>| l + seq![10u8],
        ));
        assert(ls.map_values(|l: Seq<u8>| l + seq![10u8]) =~= seq![ls[0] + seq![10u8]] + ls.skip(
            1,
        ).map_values(|l: Seq<u8>| l + seq![10u8]));
    }
}

/// Serialized rows parse back to exactly themselves.
pub proof fn lemma_parse_rows_rt(rows: Seq<Seq<Seq<u8>>>)
    requires
        forall|i: int| 0 <= i < rows.len() ==> (#[trigger] rows[i]).len() == 15,
        forall|i: int, j: int|
            0 <= i < rows.len() && 0 <= j < rows[i].len() ==> is_float_token(
                #[trigger] rows[i][j],
            ),
    ensures
        parse_rows(rows.map_values(|r: Seq<Seq<u8>>| join_sp(r) + seq![10u8])) == Ok::<
            Seq<Seq<Seq<u8>>>,
            TrajErrorV,
        >(rows),
    decreases rows.len(),
{
    let mapped = rows.map_values(|r: Seq<Seq<u8>>| join_sp(r) + seq![10u8]);
    if rows.len() == 0 {
        assert(mapped.len() == 0);
        assert(parse_rows(mapped) == Ok::<Seq<Seq<Seq<u8>>>, TrajErrorV>(Seq::empty()));
        assert(rows =~= Seq::<Seq<Seq<u8>>>::empty());
    } else {
        assert(mapped[0] == join_sp(rows[0]) + seq![10u8]);
        lemma_row_line_rt(rows[0]);
        assert forall|i: int| 0 <= i < rows.skip(1).len() implies (#[trigger] rows.skip(
            1,
        )[i]).len() == 15 by {
            assert(rows.skip(1)[i] == rows[i + 1]);
        }
        assert forall|i: int, j: int|
            0 <= i < rows.skip(1).len() && 0 <= j < rows.skip(1)[i].len() implies is_float_token(
            #[trigger] rows.skip(1)[i][j],
        ) by {
            assert(rows.skip(1)[i] == rows[i + 1]);
        }
        lemma_parse_rows_rt(rows.skip(1));
        assert(mapped.skip(1) =~= rows.skip(1).map_values(
            |r: Seq<Seq<u8>>| join_sp(r) + seq![10u8],
        ));
        assert(seq![rows[0]] + rows.skip(1) =~= rows);
    }
}

/// Round trip at the lines level: the canonical lines of a well-formed
/// record, as the scanner hands them over (with their line feeds), parse back
/// to exactly that record.
pub proof fn lemma_parse_serialized_lines(c: ConfigurationV)
    requires
        c.wf(),
    ensures
        parse_block(serialize_lines(c).map_values(|l: Seq<u8>| l + seq![10u8])) == Ok::<
            ConfigurationV,
            TrajErrorV,
        >(c),
{
    let ls = serialize_lines(c);
    let lines = ls.map_values(|l: Seq<u8>| l + seq![10u8]);
    assert(lines.len() == 3 + c.nucleotides.len());
    // Time header.
    lemma_u64_dec_digits(c.time as nat);
    lemma_u64_dec_value(c.time as nat);
    let tv = u64_dec(c.time as nat);
    assert(lines[0] =~= seq![116u8, 32u8, 61u8, 32u8] + tv + seq![10u8]);
    assert(is_digit(tv[0]) && is_digit(tv.last()));
    assert forall|q: int| 0 <= q < tv.len() implies #[trigger] tv[q] != 61 && tv[q] != 10 by {
        assert(is_digit(tv[q]));
    }
    lemma_header_line_rt(lines[0], 116, tv);
    assert(crate::record::header_value(lines, 0, 116, ErrField::Time) == Ok::<Seq<u8>, TrajErrorV>(
        tv,
    ));
    assert(is_u64_token(tv)) by {
        assert(tv[0] != 43);
        assert(strip_plus(tv) == tv);
    }
    assert(dec_value(strip_plus(tv)) == c.time as nat);
    // Box header.
    lemma_join_tokens(c.cbox);
    let bj = join_sp(c.cbox);
    assert(lines[1] =~= seq![98u8, 32u8, 61u8, 32u8] + bj + seq![10u8]);
    lemma_header_line_rt(lines[1], 98, bj);
    assert(crate::record::header_value(lines, 1, 98, ErrField::BoxDims) == Ok::<
        Seq<u8>,
        TrajErrorV,
    >(bj));
    assert forall|i: int, q: int| 0 <= i < c.cbox.len() && 0 <= q < c.cbox[i].len() implies #[trigger] c.cbox[i][q]
        != 32 by {
        lemma_float_token_bytes(c.cbox[i]);
    }
    lemma_split_join(c.cbox);
    assert(parse_floats(bj, 3, ErrField::BoxDims) == Ok::<Seq<Seq<u8>>, TrajErrorV>(c.cbox));
    // Energy header.
    lemma_join_tokens(c.cenergy);
    let ej = join_sp(c.cenergy);
    assert(lines[2] =~= seq![69u8, 32u8, 61u8, 32u8] + ej + seq![10u8]);
    lemma_header_line_rt(lines[2], 69, ej);
    assert(crate::record::header_value(lines, 2, 69, ErrField::Energy) == Ok::<
        Seq<u8>,
        TrajErrorV,
    >(ej));
    assert forall|i: int, q: int|
        0 <= i < c.cenergy.len() && 0 <= q < c.cenergy[i].len() implies #[trigger] c.cenergy[i][q]
        != 32 by {
        lemma_float_token_bytes(c.cenergy[i]);
    }
    lemma_split_join(c.cenergy);
    assert(parse_floats(ej, 3, ErrField::Energy) == Ok::<Seq<Seq<u8>>, TrajErrorV>(c.cenergy));
    // Rows.
    lemma_parse_rows_rt(c.nucleotides);
    assert(lines.skip(3) =~= c.nucleotides.map_values(|r: Seq<Seq<u8>>| join_sp(r) + seq![10u8]));
    assert(parse_rows(lines.skip(3)) == Ok::<Seq<Seq<Seq<u8>>>, TrajErrorV>(c.nucleotides));
    let parsed = parse_block(lines)->Ok_0;
    assert(parsed =~= c);
}

/// Round trip: decoding the canonical text of a well-formed record yields
/// exactly that record, spanning the whole text.
pub proof fn lemma_round_trip(c: ConfigurationV)
    requires
        c.wf(),
    ensures
        crate::read_confs_spec(serialize_text(c), 0, 1) == Ok::<
            Seq<(int, ConfigurationV)>,
            TrajErrorV,
        >(seq![(serialize_text(c).len() as int, c)]),
{
    let ls = serialize_lines(c);
    let text = serialize_text(c);
    assert(ls.len() == 3 + c.nucleotides.len());
    // No line holds a line feed, and no line but the first opens with `t`.
    lemma_u64_dec_digits(c.time as nat);
    lemma_join_tokens(c.cbox);
    lemma_join_tokens(c.cenergy);
    assert forall|i: int, q: int|
        0 <= i < ls.len() && 0 <= q < ls[i].len() implies #[trigger] ls[i][q] != 10 by {
        if i == 0 {
            assert(ls[0] == header_line(116, u64_dec(c.time as nat)));
            if q >= 4 {
                assert(ls[0][q] == u64_dec(c.time as nat)[q - 4]);
                assert(is_digit(u64_dec(c.time as nat)[q - 4]));
            }
        } else if i == 1 {
            assert(ls[1] == header_line(98, join_sp(c.cbox)));
            if q >= 4 {
                assert(ls[1][q] == join_sp(c.cbox)[q - 4]);
            }
        } else if i == 2 {
            assert(ls[2] == header_line(69, join_sp(c.cenergy)));
            if q >= 4 {
                assert(ls[2][q] == join_sp(c.cenergy)[q - 4]);
            }
        } else {
            assert(ls[i] == join_sp(c.nucleotides[i - 3]));
            lemma_join_tokens(c.nucleotides[i - 3]);
        }
    }
    assert forall|i: int| 1 <= i < ls.len() implies (#[trigger] ls[i]).len() > 0 && ls[i][0]
        != 116 by {
        if i == 1 {
            assert(ls[1] == header_line(98, join_sp(c.cbox)));
            assert(ls[1][0] == 98);
        } else if i == 2 {
            assert(ls[2] == header_line(69, join_sp(c.cenergy)));
            assert(ls[2][0] == 69);
        } else {
            assert(ls[i] == join_sp(c.nucleotides[i - 3]));
            lemma_join_tokens(c.nucleotides[i - 3]);
        }
    }
    lemma_text_block(ls);
    // The scan finds one block spanning the whole text.
    assert(text[0] == 116) by {
        assert(ls[0] == header_line(116, u64_dec(c.time as nat)));
        assert(text =~= (ls[0] + seq![10u8]) + unlines(ls.skip(1)));
    }
    assert(text.len() > 0);
    assert(next_marker(text, 0) == 0);
    let e = next_marker(text, line_end(text, 0));
    assert(e == text.len());
    let sc = scan_spec(text, 0, 1);
    assert(scan_spec(text, text.len() as int, 0) =~= Seq::<(int, int)>::empty());
    assert(sc =~= seq![(0int, text.len() as int)]);
    // The one block's lines parse back to the record.
    lemma_parse_serialized_lines(c);
    assert(lines_between(text, 0, text.len() as int) == ls.map_values(|l: Seq<u8>| l + seq![10u8]));
    assert(parse_block(lines_between(text, sc[0].0, sc[0].1)) == Ok::<ConfigurationV, TrajErrorV>(
        c,
    ));
    assert(sc.skip(1).len() == 0);
    assert(crate::first_parse_error(text, sc.skip(1)) == Ok::<
        Seq<(int, ConfigurationV)>,
        TrajErrorV,
    >(Seq::empty()));
    assert(seq![(sc[0].1, c)] + Seq::<(int, ConfigurationV)>::empty() =~= seq![
        (text.len() as int, c),
    ]);
}

/// Starting a scan anywhere inside a block's tail yields the same boundaries
/// as starting exactly at the next block start the scanner synchronizes on.
pub proof fn lemma_scan_resync(data: Seq<u8>, s: int, limit: int)
    requires
        0 <= s <= data.len(),
    ensures
        scan_spec(data, s, limit) == scan_spec(data, next_marker(data, s), limit),
{
    lemma_next_marker(data, s);
    lemma_next_marker_idem(data, s);
    let p = next_marker(data, s);
    if limit <= 0 {
    } else {
        if p == data.len() {
            assert(next_marker(data, p) == p);
        } else {
            assert(next_marker(data, p) == p);
        }
    }
}

} // verus!
