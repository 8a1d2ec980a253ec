//! The annotation and the sequences of every path of a collection.

use crate::collection::{section_views, CollectionView, TSGraph};
use crate::fasta::path_sequence;
use crate::graph::SectionView;
use crate::gtf::{lit, transcript_lines};
use crate::path::{
    identity, ids_along, lemma_first_outside_is, path_identity, path_views, PathError,
};
use crate::scan::{append, to_vec};
use crate::text::join;
use crate::traverse::{plain_path, plain_paths};
use crate::walk::{all_paths, Walk};
use crate::walk_proofs::{is_path, lemma_all_paths_are_paths};
use vstd::prelude::*;

verus! {

/// The annotation of the path along the walk `w` of the section `g`.
pub open spec fn walk_gtf(g: SectionView, w: Walk) -> Seq<u8> {
    join(transcript_lines(g, plain_path(w), identity(ids_along(g, w.nodes))), 10)
}

/// The annotations of the first `k` of the walks `ws`, each followed by a
/// newline.
pub open spec fn section_gtf(g: SectionView, ws: Seq<Walk>, k: int) -> Seq<u8>
    decreases k,
{
    if k <= 0 {
        Seq::empty()
    } else {
        section_gtf(g, ws, k - 1) + walk_gtf(g, ws[k - 1]) + lit("\n")
    }
}

/// The annotations of all the paths of the first `k` sections.
pub open spec fn collection_gtf(c: CollectionView, k: int) -> Seq<u8>
    decreases k,
{
    if k <= 0 {
        Seq::empty()
    } else {
        collection_gtf(c, k - 1) + section_gtf(
            c.sections[k - 1],
            all_paths(c.sections[k - 1]),
            all_paths(c.sections[k - 1]).len() as int,
        )
    }
}

/// The entry of the path along the walk `w` in a file of sequences: `>`
/// and the identity of the path on one line, its sequence on the next; or
/// why the path has no sequence.
pub open spec fn walk_fasta(g: SectionView, w: Walk) -> Result<Seq<u8>, PathError> {
    match path_sequence(g, w.nodes) {
        Err(e) => Err(e),
        Ok(s) => Ok(lit(">") + identity(ids_along(g, w.nodes)) + lit("\n") + s + lit("\n")),
    }
}

/// The entries of the first `k` of the walks `ws`, or the refusal of the
/// first that has no sequence.
pub open spec fn section_fasta(g: SectionView, ws: Seq<Walk>, k: int) -> Result<
    Seq<u8>,
    PathError,
>
    decreases k,
{
    if k <= 0 {
        Ok(Seq::empty())
    } else {
        match section_fasta(g, ws, k - 1) {
            Err(e) => Err(e),
            Ok(t) => match walk_fasta(g, ws[k - 1]) {
                Err(e) => Err(e),
                Ok(s) => Ok(t + s),
            },
        }
    }
}

/// The entries of all the paths of the first `k` sections, or the refusal
/// of the first path that has no sequence.
pub open spec fn collection_fasta(c: CollectionView, k: int) -> Result<Seq<u8>, PathError>
    decreases k,
{
    if k <= 0 {
        Ok(Seq::empty())
    } else {
        match collection_fasta(c, k - 1) {
            Err(e) => Err(e),
            Ok(t) => match section_fasta(
                c.sections[k - 1],
                all_paths(c.sections[k - 1]),
                all_paths(c.sections[k - 1]).len() as int,
            ) {
                Err(e) => Err(e),
                Ok(s) => Ok(t + s),
            },
        }
    }
}

/// Once a path of a section is refused, no later path changes the outcome.
pub proof fn lemma_section_fasta_stays(g: SectionView, ws: Seq<Walk>, k: int, n: int)
    requires
        0 <= k <= n,
        section_fasta(g, ws, k).is_err(),
    ensures
        section_fasta(g, ws, n) == section_fasta(g, ws, k),
    decreases n - k,
{
    if k < n {
        lemma_section_fasta_stays(g, ws, k, n - 1);
    }
}

/// Once a path of a collection is refused, no later section changes the
/// outcome.
pub proof fn lemma_collection_fasta_stays(c: CollectionView, k: int, n: int)
    requires
        0 <= k <= n,
        collection_fasta(c, k).is_err(),
    ensures
        collection_fasta(c, n) == collection_fasta(c, k),
    decreases n - k,
{
    if k < n {
        lemma_collection_fasta_stays(c, k, n - 1);
    }
}

/// Every path that the enumeration gives has an identity.
pub proof fn lemma_paths_have_identity(g: SectionView, i: int)
    requires
        g.valid(),
        0 <= i < all_paths(g).len(),
    ensures
        path_identity(g, all_paths(g)[i].nodes) == Ok::<Seq<u8>, PathError>(
            identity(ids_along(g, all_paths(g)[i].nodes)),
        ),
{
    lemma_all_paths_are_paths(g);
    let w = all_paths(g)[i];
    assert(is_path(g, w));
    lemma_first_outside_is(w.nodes, g.nodes.len() as int, w.nodes.len() as int);
}

/// The annotation of every path of every section of the collection: for
/// each path, the line of the transcript and the lines of the exons of its
/// nodes, then a newline.
pub fn to_gtf(collection: &TSGraph) -> (r: Vec<u8>)
    requires
        collection.wf(),
    ensures
        r@ == collection_gtf(collection@, collection@.sections.len() as int),
{
    let graphs = collection.graphs();
    let mut out: Vec<u8> = Vec::new();
    let mut k: usize = 0;
    while k < graphs.len()
        invariant
            k <= graphs.len(),
            section_views(graphs@) == collection@.sections,
            forall|i: int| 0 <= i < graphs.len() ==> (#[trigger] graphs@[i]).wf(),
            out@ == collection_gtf(collection@, k as int),
        decreases graphs.len() - k,
    {
        let section = &graphs[k];
        let ghost g = section@;
        let ghost ws = all_paths(g);
        let ghost stem = out@;
        let paths = section.enumerate_paths();
        let mut j: usize = 0;
        proof {
            assert(section_views(graphs@)[k as int] == g);
            section.lemma_valid();
            assert(path_views(paths@).len() == paths.len());
            assert(plain_paths(ws).len() == ws.len());
            assert(out@ =~= stem + section_gtf(g, ws, 0));
        }
        while j < paths.len()
            invariant
                j <= paths.len(),
                paths.len() == ws.len(),
                section.wf(),
                g == section@,
                g.valid(),
                ws == all_paths(g),
                path_views(paths@) == plain_paths(ws),
                out@ == stem + section_gtf(g, ws, j as int),
            decreases paths.len() - j,
        {
            proof {
                assert(path_views(paths@)[j as int] == plain_paths(ws)[j as int]);
                assert(paths@[j as int]@ == plain_path(ws[j as int]));
                lemma_paths_have_identity(g, j as int);
            }
            match paths[j].to_gtf(section) {
                Ok(text) => {
                    let ghost before = out@;
                    append(&mut out, text.as_slice());
                    append(&mut out, "\n".as_bytes());
                    proof {
                        assert(text@ == walk_gtf(g, ws[j as int]));
                        assert(out@ =~= stem + (section_gtf(g, ws, j as int) + walk_gtf(
                            g,
                            ws[j as int],
                        ) + lit("\n")));
                    }
                },
                Err(_) => {
                    assert(false);
                },
            }
            j += 1;
        }
        k += 1;
    }
    out
}

/// The sequences of every path of every section of the collection: for
/// each path, `>` and its identity on one line and its sequence on the next.
/// A path with a node that has no sequence ends the work, and its refusal is
/// returned in place of the text.
pub fn to_fa(collection: &TSGraph) -> (r: Result<Vec<u8>, PathError>)
    requires
        collection.wf(),
    ensures
        match r {
            Ok(v) => collection_fasta(collection@, collection@.sections.len() as int) == Ok::<
                Seq<u8>,
                PathError,
            >(v@),
            Err(e) => collection_fasta(collection@, collection@.sections.len() as int) == Err::<
                Seq<u8>,
                PathError,
            >(e),
        },
{
    let graphs = collection.graphs();
    let ghost c = collection@;
    let mut out: Vec<u8> = Vec::new();
    let mut k: usize = 0;
    while k < graphs.len()
        invariant
            k <= graphs.len(),
            c == collection@,
            section_views(graphs@) == c.sections,
            forall|i: int| 0 <= i < graphs.len() ==> (#[trigger] graphs@[i]).wf(),
            collection_fasta(c, k as int) == Ok::<Seq<u8>, PathError>(out@),
        decreases graphs.len() - k,
    {
        let section = &graphs[k];
        let ghost g = section@;
        let ghost ws = all_paths(g);
        let ghost stem = out@;
        let paths = section.enumerate_paths();
        let mut chunk: Vec<u8> = Vec::new();
        let mut j: usize = 0;
        proof {
            assert(section_views(graphs@)[k as int] == g);
            section.lemma_valid();
            assert(path_views(paths@).len() == paths.len());
            assert(plain_paths(ws).len() == ws.len());
        }
        while j < paths.len()
            invariant
                j <= paths.len(),
                paths.len() == ws.len(),
                section.wf(),
                g == section@,
                g.valid(),
                ws == all_paths(g),
                path_views(paths@) == plain_paths(ws),
                c == collection@,
                k < graphs.len(),
                section_views(graphs@) == c.sections,
                c.sections[k as int] == g,
                collection_fasta(c, k as int) == Ok::<Seq<u8>, PathError>(stem),
                section_fasta(g, ws, j as int) == Ok::<Seq<u8>, PathError>(chunk@),
            decreases paths.len() - j,
        {
            proof {
                assert(path_views(paths@)[j as int] == plain_paths(ws)[j as int]);
                assert(paths@[j as int]@ == plain_path(ws[j as int]));
                lemma_paths_have_identity(g, j as int);
            }
            let sequence = match paths[j].to_fa(section) {
                Ok(s) => s,
                Err(e) => {
                    proof {
                        lemma_section_fasta_stays(g, ws, j + 1, ws.len() as int);
                        lemma_collection_fasta_stays(c, k + 1, c.sections.len() as int);
                    }
                    return Err(e);
                },
            };
            match paths[j].id(section) {
                Ok(id) => {
                    let mut entry = to_vec(">".as_bytes());
                    append(&mut entry, id.as_slice());
                    append(&mut entry, "\n".as_bytes());
                    append(&mut entry, sequence.as_slice());
                    append(&mut entry, "\n".as_bytes());
                    append(&mut chunk, entry.as_slice());
                },
                Err(_) => {
                    assert(false);
                },
            }
            j += 1;
        }
        append(&mut out, chunk.as_slice());
        k += 1;
    }
    Ok(out)
}

} // verus!
