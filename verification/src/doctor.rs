//! The `doctor` report: what this build of the planner offers and what it
//! knowingly leaves out.

use vstd::prelude::*;

verus! {

/// The crate version the report names.
pub const VERSION: &'static str = "0.1.0";

/// The report's lines, in order.
pub open spec fn doctor_lines() -> Seq<Seq<char>> {
    seq![
        "gugen version: "@ + VERSION@,
        "chematic-crystal integration status: disabled (the crystal-structure adapter is not part of this build)"@,
        "mikiwame integration status: disabled (the structural-analysis adapter is not part of this build)"@,
        "enabled route families: [ConventionalSolidState, Mechanochemical]"@,
        "precursor catalog version: not applicable outside a `plan`/`batch` run (no persistent catalog is configured by this CLI)"@,
        "thermodynamic provider: none (this CLI configures no provider)"@,
        "process evidence provider: none (this CLI configures no provider)"@,
        "route suitability provider: none (this CLI configures no provider)"@,
        "literature evidence provider: none (this CLI configures no provider)"@,
        "deterministic mode: yes -- the planning core never reads the system clock; execution_timestamp is supplied by this CLI at the moment each `plan`/`batch` runs"@,
        "supported domain: bulk polycrystalline inorganic solids via conventional solid-state or mechanochemical synthesis"@,
        "known limitations: route-family suitability findings never affect ranking scores; no hazard/safety database (manual_review_required is always true); reaction balancing returns one reaction per single-signed null-space basis vector and never searches sums of basis vectors"@,
    ]
}

/// Lines joined, each followed by nothing but the separating newline.
pub open spec fn joined(lines: Seq<Seq<char>>) -> Seq<char>
    decreases lines.len(),
{
    if lines.len() == 0 {
        Seq::empty()
    } else if lines.len() == 1 {
        lines[0]
    } else {
        joined(lines.drop_last()) + "\n"@ + lines.last()
    }
}

/// The `doctor` report text.
pub fn doctor_report() -> (r: String)
    ensures
        r@ == joined(doctor_lines()),
{
    let mut out = String::from_str("gugen version: ");
    out.append(VERSION);
    let ghost l0 = out@;
    out.append("\n");
    out.append("chematic-crystal integration status: disabled (the crystal-structure adapter is not part of this build)");
    let ghost l1 = out@;
    out.append("\n");
    out.append("mikiwame integration status: disabled (the structural-analysis adapter is not part of this build)");
    let ghost l2 = out@;
    out.append("\n");
    out.append("enabled route families: [ConventionalSolidState, Mechanochemical]");
    let ghost l3 = out@;
    out.append("\n");
    out.append("precursor catalog version: not applicable outside a `plan`/`batch` run (no persistent catalog is configured by this CLI)");
    let ghost l4 = out@;
    out.append("\n");
    out.append("thermodynamic provider: none (this CLI configures no provider)");
    let ghost l5 = out@;
    out.append("\n");
    out.append("process evidence provider: none (this CLI configures no provider)");
    let ghost l6 = out@;
    out.append("\n");
    out.append("route suitability provider: none (this CLI configures no provider)");
    let ghost l7 = out@;
    out.append("\n");
    out.append("literature evidence provider: none (this CLI configures no provider)");
    let ghost l8 = out@;
    out.append("\n");
    out.append("deterministic mode: yes -- the planning core never reads the system clock; execution_timestamp is supplied by this CLI at the moment each `plan`/`batch` runs");
    let ghost l9 = out@;
    out.append("\n");
    out.append("supported domain: bulk polycrystalline inorganic solids via conventional solid-state or mechanochemical synthesis");
    let ghost l10 = out@;
    out.append("\n");
    out.append("known limitations: route-family suitability findings never affect ranking scores; no hazard/safety database (manual_review_required is always true); reaction balancing returns one reaction per single-signed null-space basis vector and never searches sums of basis vectors");
    proof {
        let ls = doctor_lines();
        assert(l0 =~= joined(ls.take(1)));
        assert(ls.take(2).drop_last() =~= ls.take(1));
        assert(l1 =~= joined(ls.take(2)));
        assert(ls.take(3).drop_last() =~= ls.take(2));
        assert(l2 =~= joined(ls.take(3)));
        assert(ls.take(4).drop_last() =~= ls.take(3));
        assert(l3 =~= joined(ls.take(4)));
        assert(ls.take(5).drop_last() =~= ls.take(4));
        assert(l4 =~= joined(ls.take(5)));
        assert(ls.take(6).drop_last() =~= ls.take(5));
        assert(l5 =~= joined(ls.take(6)));
        assert(ls.take(7).drop_last() =~= ls.take(6));
        assert(l6 =~= joined(ls.take(7)));
        assert(ls.take(8).drop_last() =~= ls.take(7));
        assert(l7 =~= joined(ls.take(8)));
        assert(ls.take(9).drop_last() =~= ls.take(8));
        assert(l8 =~= joined(ls.take(9)));
        assert(ls.take(10).drop_last() =~= ls.take(9));
        assert(l9 =~= joined(ls.take(10)));
        assert(ls.take(11).drop_last() =~= ls.take(10));
        assert(l10 =~= joined(ls.take(11)));
        assert(ls.take(12).drop_last() =~= ls.take(11));
        assert(out@ =~= joined(ls.take(12)));
        assert(ls.take(12) =~= ls);
    }
    out
}

} // verus!
