//! An offline icon compiler core: it deduplicates discovered icon source
//! records, flattens each icon's scene graph into a list of filled shapes with
//! composed transforms and opacities, derives collision-free constant
//! identifiers, and serializes a deterministic static geometry table.
//!
//! All coordinates, transform coefficients and opacities are fixed-point
//! values in hundredths, matching the two-decimal precision of the emitted
//! table; every arithmetic step is exact and checked.
use vstd::prelude::*;

pub mod emit;
pub mod geometry;
pub mod ident;
pub mod scan;
pub mod scene;
pub mod text;

use crate::emit::{emit_table, icons_view, sort_spec, table_text, EmitError, GIcon, ResolvedIcon};
use crate::ident::ident_of;
use crate::scan::SourceRecord;
use crate::scene::{resolve_doc, resolve_doc_spec, GError, ResolveError, SceneDoc};

verus! {

/// One icon ready to be compiled: its chosen source record and the parsed
/// scene document of that record's file.
pub struct IconInput {
    pub record: SourceRecord,
    pub doc: SceneDoc,
}

/// Why a build failed. Any failure aborts the whole run: the table is
/// all-or-nothing.
#[derive(Debug)]
pub enum BuildError {
    /// Resolving one icon's scene failed; the payload holds the offending
    /// file's path and the specific problem.
    Resolve(String, ResolveError),
    /// Two icon names normalize to the same identifier; the payload holds
    /// the two names.
    Collision(String, String),
}

/// Mathematical model of a build failure.
pub ghost enum GBuildError {
    Resolve(Seq<char>, GError),
    Collision(Seq<char>, Seq<char>),
}

impl View for BuildError {
    type V = GBuildError;

    open spec fn view(&self) -> GBuildError {
        match self {
            BuildError::Resolve(p, e) => GBuildError::Resolve(p@, e@),
            BuildError::Collision(a, b) => GBuildError::Collision(a@, b@),
        }
    }
}

/// What resolving every input yields: one table entry per input, in input
/// order, or the first failing file's path and error.
pub open spec fn resolve_all(inputs: Seq<IconInput>) -> Result<Seq<GIcon>, GBuildError>
    decreases inputs.len(),
{
    if inputs.len() == 0 {
        Ok(Seq::<GIcon>::empty())
    } else {
        match resolve_doc_spec(inputs[0].doc) {
            Err(e) => Err(GBuildError::Resolve(inputs[0].record.path@, e)),
            Ok(shapes) => match resolve_all(inputs.subrange(1, inputs.len() as int)) {
                Err(e) => Err(e),
                Ok(rest) => Ok(
                    seq![
                        GIcon {
                            key: inputs[0].record.key@,
                            size: inputs[0].record.size as int,
                            shapes,
                        },
                    ] + rest,
                ),
            },
        }
    }
}

/// Resolves every chosen icon and serializes the deterministic table: the
/// result text is a function of the inputs alone, every identifier in it is
/// unique, and a failure leaves no output at all.
pub fn compile_icons(inputs: Vec<IconInput>) -> (r: Result<String, BuildError>)
    ensures
        match r {
            Ok(s) => resolve_all(inputs@) matches Ok(gicons) && s@ == table_text(
                sort_spec(gicons),
            ) && (forall|i: int, j: int|
                0 <= i < j < sort_spec(gicons).len() ==> ident_of(
                    (#[trigger] sort_spec(gicons)[i]).key.name,
                ) != ident_of((#[trigger] sort_spec(gicons)[j]).key.name)),
            Err(e) => {
                ||| (e@ matches GBuildError::Resolve(p, ge) && resolve_all(inputs@) == Err::<
                    Seq<GIcon>,
                    GBuildError,
                >(GBuildError::Resolve(p, ge)))
                ||| (e@ matches GBuildError::Collision(first, second) && resolve_all(inputs@)
                    matches Ok(gicons) && exists|i: int, j: int|
                    0 <= i < j < sort_spec(gicons).len() && first == (#[trigger] sort_spec(
                        gicons,
                    )[i]).key.name && second == (#[trigger] sort_spec(gicons)[j]).key.name
                        && ident_of(sort_spec(gicons)[i].key.name) == ident_of(
                        sort_spec(gicons)[j].key.name,
                    ))
            },
        },
{
    let ghost all = inputs@;
    let mut rest = inputs;
    let mut icons: Vec<ResolvedIcon> = Vec::new();
    proof {
        assert(all.subrange(0, all.len() as int) =~= all);
        assert(icons_view(Seq::<ResolvedIcon>::empty()) =~= Seq::<GIcon>::empty());
    }
    while rest.len() > 0
        invariant
            all == inputs@,
            resolve_all(all) == match resolve_all(rest@) {
                Err(e) => Err::<Seq<GIcon>, GBuildError>(e),
                Ok(gs) => Ok::<Seq<GIcon>, GBuildError>(icons_view(icons@) + gs),
            },
        decreases rest.len(),
    {
        let ghost srest = rest@;
        let inp = rest.remove(0);
        proof {
            assert(srest[0] == inp);
            assert(rest@ =~= srest.subrange(1, srest.len() as int));
        }
        match resolve_doc(&inp.doc) {
            Err(e) => {
                return Err(BuildError::Resolve(inp.record.path, e));
            },
            Ok(shapes) => {
                let ghost pre = icons_view(icons@);
                let icon = ResolvedIcon { key: inp.record.key, size: inp.record.size, shapes };
                let ghost gicon = icon@;
                icons.push(icon);
                proof {
                    assert(icons_view(icons@) =~= pre + seq![gicon]);
                    match resolve_all(rest@) {
                        Ok(gs) => {
                            assert((pre + seq![gicon]) + gs =~= pre + (seq![gicon] + gs));
                        },
                        Err(_) => {},
                    }
                }
            },
        }
    }
    proof {
        assert(rest@ =~= Seq::<IconInput>::empty());
        assert(icons_view(icons@) + Seq::<GIcon>::empty() =~= icons_view(icons@));
    }
    match emit_table(icons) {
        Ok(s) => Ok(s),
        Err(EmitError::IdentCollision(a, b)) => Err(BuildError::Collision(a, b)),
    }
}

/// Determinism: a successful run's text is a function of the inputs alone,
/// so two successful runs over the same inputs emit the identical table.
pub proof fn lemma_output_deterministic(inputs: Seq<IconInput>, s1: Seq<char>, s2: Seq<char>)
    requires
        resolve_all(inputs) matches Ok(g1) && s1 == table_text(sort_spec(g1)),
        resolve_all(inputs) matches Ok(g2) && s2 == table_text(sort_spec(g2)),
    ensures
        s1 == s2,
{
}

} // verus!
