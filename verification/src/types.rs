//! Shared output types and the strategy and format choices.

use vstd::prelude::*;

use crate::json::{Json, JsonV};

verus! {

/// How the next queries are chosen.
#[derive(Debug, Clone, Copy, PartialEq, Eq, Structural)]
pub enum Strategy {
    Drill,
    Compare,
    Pivot,
    Auto,
}

/// How the proposals are printed.
#[derive(Debug, Clone, Copy, PartialEq, Eq, Structural)]
pub enum Format {
    Json,
    Human,
}

/// The name of a strategy.
pub open spec fn strategy_name(s: Strategy) -> Seq<char> {
    match s {
        Strategy::Drill => "drill"@,
        Strategy::Compare => "compare"@,
        Strategy::Pivot => "pivot"@,
        Strategy::Auto => "auto"@,
    }
}

/// The strategy that `text` names, if any.
pub open spec fn strategy_named(text: Seq<char>) -> Option<Strategy> {
    if text == "drill"@ {
        Some(Strategy::Drill)
    } else if text == "compare"@ {
        Some(Strategy::Compare)
    } else if text == "pivot"@ {
        Some(Strategy::Pivot)
    } else if text == "auto"@ {
        Some(Strategy::Auto)
    } else {
        None
    }
}

/// The message for a text that names no strategy.
pub open spec fn unknown_strategy_message(text: Seq<char>) -> Seq<char> {
    "unknown strategy: '"@ + text + "'; expected drill|compare|pivot|auto"@
}

/// The name of a format.
pub open spec fn format_name(f: Format) -> Seq<char> {
    match f {
        Format::Json => "json"@,
        Format::Human => "human"@,
    }
}

/// The format that `text` names, if any.
pub open spec fn format_named(text: Seq<char>) -> Option<Format> {
    if text == "json"@ {
        Some(Format::Json)
    } else if text == "human"@ {
        Some(Format::Human)
    } else {
        None
    }
}

/// The message for a text that names no format.
pub open spec fn unknown_format_message(text: Seq<char>) -> Seq<char> {
    "unknown format: '"@ + text + "'; expected json|human"@
}

/// Whether two texts are equal.
fn same_text(a: &str, b: &str) -> (r: bool)
    ensures
        r == (a@ == b@),
{
    String::from_str(a) == String::from_str(b)
}

impl Strategy {
    /// The name of this strategy.
    pub fn to_string(&self) -> (r: String)
        ensures
            r@ == strategy_name(*self),
    {
        match self {
            Strategy::Drill => String::from_str("drill"),
            Strategy::Compare => String::from_str("compare"),
            Strategy::Pivot => String::from_str("pivot"),
            Strategy::Auto => String::from_str("auto"),
        }
    }

    /// The strategy that `s` names: `drill`, `compare`, `pivot` or `auto`.
    pub fn from_str(s: &str) -> (r: Result<Strategy, String>)
        ensures
            match strategy_named(s@) {
                Some(st) => r == Ok::<Strategy, String>(st),
                None => r matches Err(e) && e@ == unknown_strategy_message(s@),
            },
    {
        if same_text(s, "drill") {
            Ok(Strategy::Drill)
        } else if same_text(s, "compare") {
            Ok(Strategy::Compare)
        } else if same_text(s, "pivot") {
            Ok(Strategy::Pivot)
        } else if same_text(s, "auto") {
            Ok(Strategy::Auto)
        } else {
            let mut e = String::from_str("unknown strategy: '");
            e.append(s);
            e.append("'; expected drill|compare|pivot|auto");
            Err(e)
        }
    }
}

impl Format {
    /// The name of this format.
    pub fn to_string(&self) -> (r: String)
        ensures
            r@ == format_name(*self),
    {
        match self {
            Format::Json => String::from_str("json"),
            Format::Human => String::from_str("human"),
        }
    }

    /// The format that `s` names: `json` or `human`.
    pub fn from_str(s: &str) -> (r: Result<Format, String>)
        ensures
            match format_named(s@) {
                Some(f) => r == Ok::<Format, String>(f),
                None => r matches Err(e) && e@ == unknown_format_message(s@),
            },
    {
        if same_text(s, "json") {
            Ok(Format::Json)
        } else if same_text(s, "human") {
            Ok(Format::Human)
        } else {
            let mut e = String::from_str("unknown format: '");
            e.append(s);
            e.append("'; expected json|human");
            Err(e)
        }
    }
}

/// Each name parses back to the strategy it names.
pub proof fn lemma_strategy_name_roundtrip(s: Strategy)
    ensures
        strategy_named(strategy_name(s)) == Some(s),
{
    reveal_strlit("drill");
    reveal_strlit("compare");
    reveal_strlit("pivot");
    reveal_strlit("auto");
    match s {
        Strategy::Drill => {},
        Strategy::Compare => {
            assert("compare"@.len() != "drill"@.len());
        },
        Strategy::Pivot => {
            assert("pivot"@[0] != "drill"@[0]);
            assert("pivot"@.len() != "compare"@.len());
        },
        Strategy::Auto => {
            assert("auto"@.len() != "drill"@.len());
            assert("auto"@.len() != "compare"@.len());
            assert("auto"@.len() != "pivot"@.len());
        },
    }
}

/// Each name parses back to the format it names.
pub proof fn lemma_format_name_roundtrip(f: Format)
    ensures
        format_named(format_name(f)) == Some(f),
{
    reveal_strlit("json");
    reveal_strlit("human");
    if f == Format::Human {
        assert("human"@.len() != "json"@.len());
    }
}

/// One proposed follow-up query.
#[derive(Debug)]
pub struct Proposal {
    pub rank: usize,
    pub strategy: String,
    pub rationale: String,
    pub mqo: Json,
}

/// The proposals for a session.
#[derive(Debug)]
pub struct Output {
    pub session_id: String,
    pub proposals: Vec<Proposal>,
}

/// The mathematical value of a `Proposal`.
pub struct ProposalV {
    pub rank: int,
    pub strategy: Seq<char>,
    pub rationale: Seq<char>,
    pub mqo: JsonV,
}

/// The mathematical value of an `Output`.
pub struct OutputV {
    pub session_id: Seq<char>,
    pub proposals: Seq<ProposalV>,
}

impl Proposal {
    pub open spec fn view(&self) -> ProposalV {
        ProposalV {
            rank: self.rank as int,
            strategy: self.strategy@,
            rationale: self.rationale@,
            mqo: self.mqo@,
        }
    }
}

/// The values of a sequence of proposals.
pub open spec fn proposal_views(v: Seq<Proposal>) -> Seq<ProposalV> {
    Seq::new(v.len(), |i: int| v[i]@)
}

impl Output {
    pub open spec fn view(&self) -> OutputV {
        OutputV { session_id: self.session_id@, proposals: proposal_views(self.proposals@) }
    }
}

} // verus!
