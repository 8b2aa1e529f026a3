//! Reader and writer for line-oriented molecular-dynamics trajectory files.
//!
//! A trajectory is a sequence of configuration blocks. Each block opens with
//! three header lines (`t = <time>`, `b = <x y z>`, `E = <x y z>`) followed
//! by one line of fifteen numeric fields per particle. The library scans a
//! byte buffer for block boundaries, parses blocks into structured records in
//! parallel, serializes records back to their canonical text, and reports the
//! byte offsets that let a caller resume a scan anywhere. Opening and reading
//! the file itself is the caller's business: the library works on the bytes.
//!
//! Batch decoding is deterministic: boundary scanning is sequential, parsing
//! of the extracted blocks is handed to a parallel worker pool, and results
//! are returned in file discovery order whatever the completion order. A
//! batch call either returns every requested record or fails as a whole with
//! the failure of the lowest-indexed bad block.

pub mod laws;
pub mod record;
pub mod scan;
pub mod serialize;
pub mod text;
pub mod tokens;

use rayon::iter::IntoParallelRefIterator;
use rayon::iter::ParallelIterator;

use crate::record::parse_block;
use crate::record::Configuration;
use crate::record::ConfigurationV;
use crate::record::TrajError;
use crate::record::TrajErrorV;
use crate::scan::lines_between;
use crate::scan::scan_blocks;
use crate::scan::scan_spec;
use crate::serialize::dumps_conf;
use crate::serialize::serialize_text;
use vstd::prelude::*;

verus! {

/// The shape of one parse result.
pub open spec fn conf_res_view(r: Result<Configuration, TrajError>) -> Result<
    ConfigurationV,
    TrajErrorV,
> {
    match r {
        Ok(c) => Ok(c@),
        Err(e) => Err(e@),
    }
}

/// Folds the parse results of the scanned blocks in file order: all records
/// with their end offsets, or the failure of the lowest-indexed bad block.
pub open spec fn first_parse_error(data: Seq<u8>, sc: Seq<(int, int)>) -> Result<
    Seq<(int, ConfigurationV)>,
    TrajErrorV,
>
    decreases sc.len(),
{
    if sc.len() == 0 {
        Ok(Seq::empty())
    } else {
        match parse_block(lines_between(data, sc[0].0, sc[0].1)) {
            Err(e) => Err(e),
            Ok(c) => match first_parse_error(data, sc.skip(1)) {
                Err(e) => Err(e),
                Ok(rest) => Ok(seq![(sc[0].1, c)] + rest),
            },
        }
    }
}

/// What decoding at most `limit` blocks from `off` returns: the ordered
/// (end offset, record) pairs, or the lowest-indexed failure.
pub open spec fn read_confs_spec(data: Seq<u8>, off: int, limit: int) -> Result<
    Seq<(int, ConfigurationV)>,
    TrajErrorV,
> {
    first_parse_error(data, scan_spec(data, off, limit))
}

/// Relies on rayon's `par_iter().map(..).collect()`: the closure (here the
/// library's own verified block parser) runs once per element with no shared
/// state, and collecting an indexed parallel iterator into a `Vec` keeps
/// input order whatever the completion order.
#[verifier::external_body]
fn parse_blocks_par(blocks: Vec<Vec<Vec<u8>>>) -> (r: Vec<Result<Configuration, TrajError>>)
    ensures
        r@.len() == blocks@.len(),
        forall|i: int|
            0 <= i < r@.len() ==> conf_res_view(#[trigger] r@[i]) == parse_block(
                blocks@[i].deep_view(),
            ),
{
    blocks.par_iter().map(|lines| Configuration::from_lines(lines)).collect()
}

/// Relies on rayon's `par_iter().map(..).collect()`: the closure (here the
/// library's own verified record serializer) runs once per element with no
/// shared state, and collecting an indexed parallel iterator into a `Vec`
/// keeps input order whatever the completion order.
#[verifier::external_body]
fn dumps_confs_par(confs: &Vec<Configuration>) -> (r: Vec<Vec<u8>>)
    ensures
        r@.len() == confs@.len(),
        forall|i: int| 0 <= i < r@.len() ==> (#[trigger] r@[i])@ == serialize_text(confs@[i]@),
{
    confs.par_iter().map(|c| dumps_conf(c)).collect()
}

/// Unfolding `first_parse_error` after a prefix of blocks already parsed.
proof fn lemma_fold_prefix(
    data: Seq<u8>,
    sc: Seq<(int, int)>,
    q: int,
    outv: Seq<(int, ConfigurationV)>,
)
    requires
        0 <= q <= sc.len(),
        outv.len() == q,
        forall|i: int|
            0 <= i < q ==> parse_block(lines_between(data, sc[i].0, sc[i].1)) == Ok::<
                ConfigurationV,
                TrajErrorV,
            >((#[trigger] outv[i]).1) && outv[i].0 == sc[i].1,
    ensures
        first_parse_error(data, sc) == match first_parse_error(data, sc.skip(q)) {
            Err(e) => Err::<Seq<(int, ConfigurationV)>, TrajErrorV>(e),
            Ok(rest) => Ok::<Seq<(int, ConfigurationV)>, TrajErrorV>(outv + rest),
        },
    decreases q,
{
    if q == 0 {
        assert(sc.skip(0) =~= sc);
        match first_parse_error(data, sc) {
            Err(e) => {},
            Ok(rest) => {
                assert(outv + rest =~= rest);
            },
        }
    } else {
        assert(parse_block(lines_between(data, sc[0].0, sc[0].1)) == Ok::<
            ConfigurationV,
            TrajErrorV,
        >(outv[0].1));
        let sc1 = sc.skip(1);
        let outv1 = outv.skip(1);
        assert forall|i: int| 0 <= i < q - 1 implies parse_block(
            lines_between(data, sc1[i].0, sc1[i].1),
        ) == Ok::<ConfigurationV, TrajErrorV>((#[trigger] outv1[i]).1) && outv1[i].0
            == sc1[i].1 by {
            assert(outv1[i] == outv[i + 1]);
            assert(sc1[i] == sc[i + 1]);
        }
        lemma_fold_prefix(data, sc1, q - 1, outv1);
        assert(sc1.skip(q - 1) =~= sc.skip(q));
        match first_parse_error(data, sc.skip(q)) {
            Err(e) => {},
            Ok(rest) => {
                assert(first_parse_error(data, sc1) == Ok::<Seq<(int, ConfigurationV)>, TrajErrorV>(
                    outv1 + rest,
                ));
                assert((sc[0].1, outv[0].1) == outv[0]);
                assert(seq![outv[0]] + (outv1 + rest) =~= outv + rest);
            },
        }
    }
}

/// Decodes at most `limit` blocks, scanning from byte offset `offset`.
///
/// Boundary scanning is sequential; the extracted blocks are parsed in
/// parallel and returned as (block end offset, record) pairs in file
/// discovery order. The call returns all requested records, or the failure
/// of the lowest-indexed bad block and nothing else.
#[verifier::loop_isolation(false)]
pub fn read_confs(data: &[u8], offset: usize, limit: usize) -> (r: Result<
    Vec<(usize, Configuration)>,
    TrajError,
>)
    ensures
        ({
            let sr = read_confs_spec(data@, offset as int, limit as int);
            match r {
                Ok(v) => sr is Ok && v@.len() == sr->Ok_0.len() && forall|q: int|
                    0 <= q < v@.len() ==> (#[trigger] v@[q]).0 as int == sr->Ok_0[q].0
                        && v@[q].1@ == sr->Ok_0[q].1,
                Err(e) => sr == Err::<Seq<(int, ConfigurationV)>, TrajErrorV>(e@),
            }
        }),
{
    let off = if offset > data.len() {
        data.len()
    } else {
        offset
    };
    let ghost sc = scan_spec(data@, offset as int, limit as int);
    proof {
        if offset > data@.len() {
            assert(scan_spec(data@, off as int, limit as int) =~= sc);
        }
    }
    let (bounds, blockss) = scan_blocks(data, off, limit, true);
    let mut results = parse_blocks_par(blockss);
    let ghost rorig = results@;
    let n = results.len();
    let mut out: Vec<(usize, Configuration)> = Vec::new();
    let mut q: usize = 0;
    while q < n
        invariant
            0 <= q <= n,
            n == sc.len(),
            results@ =~= rorig.skip(q as int),
            out@.len() == q,
            forall|i: int|
                0 <= i < q ==> parse_block(lines_between(data@, sc[i].0, sc[i].1)) == Ok::<
                    ConfigurationV,
                    TrajErrorV,
                >((#[trigger] out@[i]).1@) && out@[i].0 as int == sc[i].1,
        decreases n - q,
    {
        let ghost resultsold = results@;
        let item = results.remove(0);
        proof {
            assert(item == rorig[q as int]);
            assert(results@ =~= rorig.skip(q + 1));
            assert(blockss.deep_view()[q as int] == blockss@[q as int].deep_view());
            assert(blockss.deep_view()[q as int] == lines_between(
                data@,
                sc[q as int].0,
                sc[q as int].1,
            ));
            assert(conf_res_view(rorig[q as int]) == parse_block(
                lines_between(data@, sc[q as int].0, sc[q as int].1),
            ));
        }
        match item {
            Err(e) => {
                proof {
                    let outv = out@.map_values(
                        |p: (usize, Configuration)| (p.0 as int, p.1@),
                    );
                    assert forall|i: int| 0 <= i < q implies parse_block(
                        lines_between(data@, sc[i].0, sc[i].1),
                    ) == Ok::<ConfigurationV, TrajErrorV>((#[trigger] outv[i]).1) && outv[i].0
                        == sc[i].1 by {
                        assert(outv[i] == (out@[i].0 as int, out@[i].1@));
                    }
                    lemma_fold_prefix(data@, sc, q as int, outv);
                    assert(sc.skip(q as int)[0] == sc[q as int]);
                    assert(first_parse_error(data@, sc.skip(q as int)) == Err::<
                        Seq<(int, ConfigurationV)>,
                        TrajErrorV,
                    >(e@));
                }
                return Err(e);
            },
            Ok(c) => {
                let end = bounds[q].1;
                out.push((end, c));
            },
        }
        q += 1;
    }
    proof {
        let outv = out@.map_values(|p: (usize, Configuration)| (p.0 as int, p.1@));
        assert forall|i: int| 0 <= i < n implies parse_block(
            lines_between(data@, sc[i].0, sc[i].1),
        ) == Ok::<ConfigurationV, TrajErrorV>((#[trigger] outv[i]).1) && outv[i].0 == sc[i].1 by {
            assert(outv[i] == (out@[i].0 as int, out@[i].1@));
        }
        lemma_fold_prefix(data@, sc, n as int, outv);
        assert(sc.skip(n as int).len() == 0);
        assert(first_parse_error(data@, sc.skip(n as int)) == Ok::<
            Seq<(int, ConfigurationV)>,
            TrajErrorV,
        >(Seq::empty()));
        assert(outv + Seq::<(int, ConfigurationV)>::empty() =~= outv);
        assert forall|i: int| 0 <= i < n implies (#[trigger] out@[i]).0 as int == outv[i].0
            && out@[i].1@ == outv[i].1 by {
            assert(outv[i] == (out@[i].0 as int, out@[i].1@));
        }
    }
    Ok(out)
}

/// Scans for at most `limit` block boundaries from byte offset `offset` and
/// returns their end offsets in file order, never retaining block content.
#[verifier::loop_isolation(false)]
pub fn read_offsets(data: &[u8], offset: usize, limit: usize) -> (r: Vec<usize>)
    ensures
        ({
            let sc = scan_spec(data@, offset as int, limit as int);
            r@.len() == sc.len() && forall|q: int|
                0 <= q < sc.len() ==> #[trigger] r@[q] as int == sc[q].1
        }),
{
    let off = if offset > data.len() {
        data.len()
    } else {
        offset
    };
    let ghost sc = scan_spec(data@, offset as int, limit as int);
    proof {
        if offset > data@.len() {
            assert(scan_spec(data@, off as int, limit as int) =~= sc);
        }
    }
    let (bounds, _blockss) = scan_blocks(data, off, limit, false);
    let n = bounds.len();
    let mut r: Vec<usize> = Vec::new();
    let mut q: usize = 0;
    while q < n
        invariant
            0 <= q <= n,
            n == sc.len(),
            r@.len() == q,
            forall|i: int| 0 <= i < q ==> #[trigger] r@[i] as int == sc[i].1,
        decreases n - q,
    {
        r.push(bounds[q].1);
        q += 1;
    }
    r
}

/// Serializes an ordered list of records in parallel; the textual blocks come
/// back in input order.
pub fn dumps_confs(confs: &Vec<Configuration>) -> (r: Vec<Vec<u8>>)
    ensures
        r@.len() == confs@.len(),
        forall|i: int| 0 <= i < r@.len() ==> (#[trigger] r@[i])@ == serialize_text(confs@[i]@),
{
    dumps_confs_par(confs)
}

} // verus!
