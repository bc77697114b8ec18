//! Configuration snapshot consumed by the interception pipeline.
//!
//! The core never loads or mutates configuration: a collaborator parses it
//! and hands an immutable snapshot over. A masking rule binds a column name
//! to a strategy; a rule without a table name matches any column of that
//! name, and table-scoped rules match unconditionally as well, since the
//! wire carries only a table identifier, not its name.

use vstd::prelude::*;

verus! {

/// Mathematical model of one masking rule.
pub struct RuleModel {
    pub table: Option<Seq<char>>,
    pub column: Seq<char>,
    pub strategy: Seq<char>,
}

/// One masking rule: the column it binds and the strategy to apply. An
/// unknown strategy name degrades to the verbatim `MASKED` constant.
pub struct MaskingRule {
    pub table: Option<String>,
    pub column: String,
    pub strategy: String,
}

impl View for MaskingRule {
    type V = RuleModel;

    open spec fn view(&self) -> RuleModel {
        RuleModel {
            table: match self.table {
                Some(t) => Some(t@),
                None => None,
            },
            column: self.column@,
            strategy: self.strategy@,
        }
    }
}

/// TLS material for a listener that terminates TLS outside the core.
pub struct TlsConfig {
    pub enabled: bool,
    pub cert_path: String,
    pub key_path: String,
}

/// The immutable configuration snapshot the core reads: whether the content
/// heuristic runs, and the ordered masking rules.
pub struct AppConfig {
    pub masking_enabled: bool,
    pub rules: Vec<MaskingRule>,
    pub tls: Option<TlsConfig>,
}

impl AppConfig {
    /// The models of the rules, in their configured order.
    pub open spec fn rules_model(&self) -> Seq<RuleModel> {
        Seq::new(self.rules@.len(), |i: int| self.rules@[i]@)
    }
}

/// The wire protocol spoken with the upstream database.
#[derive(Clone, Copy, Debug, PartialEq, Eq, Structural)]
pub enum DbProtocol {
    Postgres,
    MySql,
}

/// The content heuristic runs unless the configuration switches it off.
pub fn default_masking_enabled() -> (b: bool)
    ensures
        b,
{
    true
}

} // verus!
