//! The command line's own logic: reading the `--strategy` and `--format`
//! choices, and the one-line-per-proposal human rendering.

use vstd::prelude::*;

use crate::text::{decimal, decimal_text};
use crate::types::{
    format_named, strategy_named, unknown_format_message, unknown_strategy_message, Format, Output,
    OutputV, ProposalV, Strategy,
};

verus! {

/// Read a `--strategy` value.
pub fn parse_strategy(s: &str) -> (r: Result<Strategy, String>)
    ensures
        match strategy_named(s@) {
            Some(st) => r == Ok::<Strategy, String>(st),
            None => r matches Err(e) && e@ == unknown_strategy_message(s@),
        },
{
    Strategy::from_str(s)
}

/// Read a `--format` value.
pub fn parse_format(s: &str) -> (r: Result<Format, String>)
    ensures
        match format_named(s@) {
            Some(f) => r == Ok::<Format, String>(f),
            None => r matches Err(e) && e@ == unknown_format_message(s@),
        },
{
    Format::from_str(s)
}

/// The line of one proposal: rank, strategy and rationale.
pub open spec fn proposal_line(p: ProposalV) -> Seq<char> {
    "  ["@ + decimal(p.rank as nat) + "] strategy="@ + p.strategy + " — "@ + p.rationale
}

/// The lines of the human rendering: the session id, the number of
/// proposals, then one line per proposal.
pub open spec fn human_lines(o: OutputV) -> Seq<Seq<char>> {
    seq!["session_id: "@ + o.session_id, decimal(o.proposals.len()) + " proposal(s):"@] + Seq::new(
        o.proposals.len(),
        |i: int| proposal_line(o.proposals[i]),
    )
}

/// The lines joined by line breaks.
pub open spec fn join_lines(lines: Seq<Seq<char>>) -> Seq<char>
    decreases lines.len(),
{
    if lines.len() == 0 {
        Seq::empty()
    } else if lines.len() == 1 {
        lines[0]
    } else {
        join_lines(lines.drop_last()) + "\n"@ + lines.last()
    }
}

/// The human rendering of an output.
pub fn format_human(output: &Output) -> (r: String)
    ensures
        r@ == join_lines(human_lines(output@)),
{
    let ghost lines = human_lines(output@);
    let mut r = String::from_str("session_id: ");
    r.append(output.session_id.as_str());
    assert(lines.take(1).drop_last() =~= Seq::<Seq<char>>::empty());
    assert(r@ == join_lines(lines.take(1)));
    r.append("\n");
    let n = decimal_text(output.proposals.len());
    r.append(n.as_str());
    r.append(" proposal(s):");
    assert(lines.take(2).drop_last() =~= lines.take(1));
    assert(r@ == join_lines(lines.take(2)));
    let mut i: usize = 0;
    while i < output.proposals.len()
        invariant
            i <= output.proposals@.len(),
            lines == human_lines(output@),
            r@ == join_lines(lines.take(i + 2)),
        decreases output.proposals@.len() - i,
    {
        let p = &output.proposals[i];
        r.append("\n");
        r.append("  [");
        let rank = decimal_text(p.rank);
        r.append(rank.as_str());
        r.append("] strategy=");
        r.append(p.strategy.as_str());
        r.append(" — ");
        r.append(p.rationale.as_str());
        assert(lines.take(i + 3).drop_last() =~= lines.take(i + 2));
        assert(lines[i + 2] == proposal_line(output@.proposals[i as int]));
        assert(r@ =~= join_lines(lines.take(i + 3)));
        i = i + 1;
    }
    assert(lines.take(output.proposals@.len() + 2int) =~= lines);
    r
}

} // verus!
