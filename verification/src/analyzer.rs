//! Detection of patterns that invite catastrophic backtracking (ReDoS).
use vstd::prelude::*;
use crate::ast::{Expr, SExpr, CharClass, SClass, CharClassItem, RepetitionKind, GroupKind, view_seq};
use crate::text::{push_str, push_decimal, decimal, owned};

verus! {

#[derive(Debug, Clone, Copy, PartialEq, Eq, Structural, PartialOrd, Ord)]
pub enum RiskLevel {
    Safe,
    Low,
    Medium,
    High,
    Critical,
}

/// Severity of a level, from `Safe` (0) to `Critical` (4).
pub open spec fn level_rank(l: RiskLevel) -> int {
    match l {
        RiskLevel::Safe => 0,
        RiskLevel::Low => 1,
        RiskLevel::Medium => 2,
        RiskLevel::High => 3,
        RiskLevel::Critical => 4,
    }
}

/// The name of a level.
pub open spec fn level_name(l: RiskLevel) -> Seq<char> {
    match l {
        RiskLevel::Safe => "Safe"@,
        RiskLevel::Low => "Low"@,
        RiskLevel::Medium => "Medium"@,
        RiskLevel::High => "High"@,
        RiskLevel::Critical => "Critical"@,
    }
}

/// One finding.
pub struct ReDoSRisk {
    pub level: RiskLevel,
    pub description: String,
    pub suggestion: String,
    pub location: String,
}

/// The mathematical value of a finding.
pub struct SRisk {
    pub level: RiskLevel,
    pub description: Seq<char>,
    pub suggestion: Seq<char>,
    pub location: Seq<char>,
}

impl View for ReDoSRisk {
    type V = SRisk;

    open spec fn view(&self) -> SRisk {
        SRisk {
            level: self.level,
            description: self.description@,
            suggestion: self.suggestion@,
            location: self.location@,
        }
    }
}

pub open spec fn risks_view(v: Seq<ReDoSRisk>) -> Seq<SRisk> {
    Seq::new(v.len(), |i: int| v[i]@)
}

/// The outcome of an analysis.
pub struct AnalysisResult {
    pub risks: Vec<ReDoSRisk>,
    pub overall_level: RiskLevel,
    pub summary: String,
}

// ----- properties of expressions -----

/// Whether the expression holds a repetition (looking through sequences, alternations
/// and groups, but not into a repetition's operand).
pub open spec fn spec_contains_quantifier(e: SExpr) -> bool
    decreases e,
{
    match e {
        SExpr::Repetition { .. } => true,
        SExpr::Concat(items) => any_contains_quantifier(items),
        SExpr::Alternation(items) => any_contains_quantifier(items),
        SExpr::Group { expr, .. } => spec_contains_quantifier(*expr),
        _ => false,
    }
}

pub open spec fn any_contains_quantifier(items: Seq<SExpr>) -> bool
    decreases items,
{
    if items.len() == 0 {
        false
    } else {
        any_contains_quantifier(items.drop_last()) || spec_contains_quantifier(items.last())
    }
}

/// The number of repetitions in the expression, nested ones included.
pub open spec fn spec_count_quantifiers(e: SExpr) -> nat
    decreases e,
{
    match e {
        SExpr::Repetition { expr, .. } => 1 + spec_count_quantifiers(*expr),
        SExpr::Concat(items) => sum_count_quantifiers(items),
        SExpr::Alternation(items) => sum_count_quantifiers(items),
        SExpr::Group { expr, .. } => spec_count_quantifiers(*expr),
        _ => 0,
    }
}

pub open spec fn sum_count_quantifiers(items: Seq<SExpr>) -> nat
    decreases items,
{
    if items.len() == 0 {
        0
    } else {
        sum_count_quantifiers(items.drop_last()) + spec_count_quantifiers(items.last())
    }
}

/// Whether the expression holds an alternation (looking through sequences, repetitions
/// and groups).
pub open spec fn spec_contains_alternation(e: SExpr) -> bool
    decreases e,
{
    match e {
        SExpr::Alternation(_) => true,
        SExpr::Concat(items) => any_contains_alternation(items),
        SExpr::Repetition { expr, .. } => spec_contains_alternation(*expr),
        SExpr::Group { expr, .. } => spec_contains_alternation(*expr),
        _ => false,
    }
}

pub open spec fn any_contains_alternation(items: Seq<SExpr>) -> bool
    decreases items,
{
    if items.len() == 0 {
        false
    } else {
        any_contains_alternation(items.drop_last()) || spec_contains_alternation(items.last())
    }
}

/// Whether the expression can match the empty string, by this analyzer's reckoning:
/// anchors can, a repetition can when its count may be zero.
pub open spec fn spec_can_match_empty(e: SExpr) -> bool
    decreases e,
{
    match e {
        SExpr::Empty => true,
        SExpr::Literal(_) => false,
        SExpr::Class(_) => false,
        SExpr::Anchor(_) => true,
        SExpr::Concat(items) => all_can_match_empty(items),
        SExpr::Alternation(items) => any_can_match_empty(items),
        SExpr::Repetition { kind, .. } => match kind {
            RepetitionKind::ZeroOrMore | RepetitionKind::ZeroOrOne => true,
            RepetitionKind::Exactly(n) => n == 0,
            RepetitionKind::Range(min, _) => min == 0,
            _ => false,
        },
        SExpr::Group { expr, .. } => spec_can_match_empty(*expr),
        SExpr::Backreference(_) => false,
    }
}

pub open spec fn all_can_match_empty(items: Seq<SExpr>) -> bool
    decreases items,
{
    if items.len() == 0 {
        true
    } else {
        all_can_match_empty(items.drop_last()) && spec_can_match_empty(items.last())
    }
}

pub open spec fn any_can_match_empty(items: Seq<SExpr>) -> bool
    decreases items,
{
    if items.len() == 0 {
        false
    } else {
        any_can_match_empty(items.drop_last()) || spec_can_match_empty(items.last())
    }
}

// ----- character sets -----

/// Inclusive character ranges that a class item contributes to a character set.
pub open spec fn class_ranges(c: SClass) -> Seq<(char, char)> {
    match c {
        SClass::Literal(x) => seq![(x, x)],
        SClass::Range(a, b) => seq![(a, b)],
        SClass::Digit => seq![('0', '9')],
        SClass::Word => seq![('0', '9'), ('a', 'z'), ('A', 'Z'), ('_', '_')],
        SClass::Whitespace => seq![(' ', ' '), ('\t', '\t'), ('\n', '\n'), ('\r', '\r')],
        _ => Seq::empty(),
    }
}

/// Inclusive character ranges whose union is the set of characters the analyzer
/// attributes to an expression: literals, simple classes, and those of the parts of
/// sequences, alternations, repetitions and groups. `.`, negated classes and bracketed
/// classes contribute nothing.
pub open spec fn char_ranges(e: SExpr) -> Seq<(char, char)>
    decreases e,
{
    match e {
        SExpr::Literal(c) => seq![(c, c)],
        SExpr::Class(cls) => class_ranges(cls),
        SExpr::Concat(items) => char_ranges_of(items),
        SExpr::Alternation(items) => char_ranges_of(items),
        SExpr::Repetition { expr, .. } => char_ranges(*expr),
        SExpr::Group { expr, .. } => char_ranges(*expr),
        _ => Seq::empty(),
    }
}

pub open spec fn char_ranges_of(items: Seq<SExpr>) -> Seq<(char, char)>
    decreases items,
{
    if items.len() == 0 {
        Seq::empty()
    } else {
        char_ranges_of(items.drop_last()) + char_ranges(items.last())
    }
}

pub open spec fn in_ranges(rs: Seq<(char, char)>, c: char) -> bool {
    exists|i: int| 0 <= i < rs.len() && rs[i].0 <= c && c <= #[trigger] rs[i].1
}

/// The set of characters attributed to an expression.
pub open spec fn char_set(e: SExpr) -> Set<char> {
    Set::new(|c: char| in_ranges(char_ranges(e), c))
}

/// Whether two expressions may match the same string, by this analyzer's reckoning: when
/// either character set is empty, or the two sets share a character.
pub open spec fn spec_sets_overlap(a: SExpr, b: SExpr) -> bool {
    ||| !(exists|c: char| char_set(a).contains(c))
    ||| !(exists|c: char| char_set(b).contains(c))
    ||| exists|c: char| char_set(a).contains(c) && char_set(b).contains(c)
}

} // verus!

verus! {

// ----- findings -----

/// The debug name of a repetition kind, e.g. `Range(0, 100)`.
pub open spec fn kind_debug(k: RepetitionKind) -> Seq<char> {
    match k {
        RepetitionKind::ZeroOrMore => "ZeroOrMore"@,
        RepetitionKind::OneOrMore => "OneOrMore"@,
        RepetitionKind::ZeroOrOne => "ZeroOrOne"@,
        RepetitionKind::Exactly(n) => "Exactly("@ + decimal(n as nat) + ")"@,
        RepetitionKind::AtLeast(n) => "AtLeast("@ + decimal(n as nat) + ")"@,
        RepetitionKind::Range(a, b) => "Range("@ + decimal(a as nat) + ", "@ + decimal(b as nat) + ")"@,
    }
}

pub open spec fn nested_suggestion(k: RepetitionKind) -> Seq<char> {
    match k {
        RepetitionKind::ZeroOrMore => "Consider using a more specific pattern or making the inner quantifier possessive. Example: (a*)* -> (a)* or use atomic groups if supported."@,
        RepetitionKind::OneOrMore => "Nested + quantifiers cause exponential backtracking. Simplify the pattern or use non-backtracking constructs."@,
        _ => "Flatten the nested quantifiers where possible. Example: (a{2})* -> a*"@,
    }
}

/// A repetition whose operand holds a quantifier: critical when the operand holds two or
/// more repetitions, high otherwise.
pub open spec fn nested_risks(inner: SExpr, kind: RepetitionKind, loc: Seq<char>) -> Seq<SRisk> {
    if spec_contains_quantifier(inner) {
        seq![SRisk {
            level: if spec_count_quantifiers(inner) >= 2 { RiskLevel::Critical } else { RiskLevel::High },
            description: "Nested quantifiers detected: outer "@ + kind_debug(kind) + " contains inner quantifier"@,
            suggestion: nested_suggestion(kind),
            location: loc,
        }]
    } else {
        Seq::empty()
    }
}

/// A greedy repetition of something that can match the empty string: medium.
pub open spec fn greedy_risks(inner: SExpr, greedy: bool, loc: Seq<char>) -> Seq<SRisk> {
    if greedy && spec_can_match_empty(inner) {
        seq![SRisk {
            level: RiskLevel::Medium,
            description: "Greedy quantifier on subexpression that can match empty string"@,
            suggestion: "Consider using a non-greedy quantifier (add ?) or ensure the subexpression matches at least one character."@,
            location: loc,
        }]
    } else {
        Seq::empty()
    }
}

/// A capturing or non-capturing group holding both an alternation and a quantifier: high.
pub open spec fn group_risks(inner: SExpr, kind: GroupKind, loc: Seq<char>) -> Seq<SRisk> {
    if (kind is Capturing || kind is NonCapturing) && spec_contains_alternation(inner) && spec_contains_quantifier(inner) {
        seq![SRisk {
            level: RiskLevel::High,
            description: "Group contains both alternation and quantifiers - high backtracking potential"@,
            suggestion: "Consider restructuring to avoid alternation inside quantified groups, or use atomic groups/ possessive quantifiers if supported."@,
            location: loc,
        }]
    } else {
        Seq::empty()
    }
}

/// Two adjacent repetitions `a` and `b` at positions `i` and `i + 1` of a sequence:
/// high when their character sets may overlap, medium otherwise.
pub open spec fn adjacent_risk(a: SExpr, b: SExpr, i: int, loc: Seq<char>) -> SRisk {
    let overlap = spec_sets_overlap(a, b);
    SRisk {
        level: if overlap { RiskLevel::High } else { RiskLevel::Medium },
        description: if overlap {
            "Adjacent quantifiers with overlapping character sets detected"@
        } else {
            "Adjacent quantifiers detected - may cause backtracking issues"@
        },
        suggestion: "Combine adjacent quantifiers where possible. Example: a*a* -> a* or a+a* -> a+"@,
        location: loc + ".concat["@ + decimal(i as nat) + ".."@ + decimal((i + 1) as nat) + "]"@,
    }
}

/// The findings for the adjacent pairs `(k, k + 1)` of a sequence with `k < n`.
pub open spec fn adjacent_risks(items: Seq<SExpr>, n: int, loc: Seq<char>) -> Seq<SRisk>
    decreases n,
{
    if n <= 0 {
        Seq::empty()
    } else {
        adjacent_risks(items, n - 1, loc) + if items[n - 1] is Repetition && items[n] is Repetition {
            seq![adjacent_risk(items[n - 1], items[n], n - 1, loc)]
        } else {
            Seq::empty()
        }
    }
}

pub open spec fn alternation_risk(i: int, j: int, loc: Seq<char>) -> SRisk {
    SRisk {
        level: RiskLevel::Medium,
        description: "Alternation branches "@ + decimal(i as nat) + " and "@ + decimal(j as nat)
            + " may match the same string, combined with quantifiers can cause backtracking"@,
        suggestion: "Reorder alternation branches from most specific to most general, or remove redundant branches."@,
        location: loc + ".alt["@ + decimal(i as nat) + "|"@ + decimal(j as nat) + "]"@,
    }
}

/// The findings for the pairs `(i, j)` with `i < j < m` of branches that may overlap.
pub open spec fn alternation_row(items: Seq<SExpr>, i: int, m: int, loc: Seq<char>) -> Seq<SRisk>
    decreases m - i,
{
    if m <= i + 1 {
        Seq::empty()
    } else {
        alternation_row(items, i, m - 1, loc) + if spec_sets_overlap(items[i], items[m - 1]) {
            seq![alternation_risk(i, m - 1, loc)]
        } else {
            Seq::empty()
        }
    }
}

/// The findings for the pairs `(i, j)` with `i < n` and `i < j` of branches that may overlap.
pub open spec fn alternation_pairs(items: Seq<SExpr>, n: int, loc: Seq<char>) -> Seq<SRisk>
    decreases n,
{
    if n <= 0 {
        Seq::empty()
    } else {
        alternation_pairs(items, n - 1, loc) + alternation_row(items, n - 1, items.len() as int, loc)
    }
}

/// Pairs of branches that may match the same string, when some branch holds a quantifier.
pub open spec fn alternation_risks(items: Seq<SExpr>, loc: Seq<char>) -> Seq<SRisk> {
    if items.len() < 2 || !any_contains_quantifier(items) {
        Seq::empty()
    } else {
        alternation_pairs(items, items.len() as int, loc)
    }
}

pub open spec fn is_wide_item(item: CharClassItem) -> bool {
    match item {
        CharClassItem::Range(a, b) => b as int - a as int > 20,
        _ => false,
    }
}

pub open spec fn has_wide_range(items: Seq<CharClassItem>) -> bool {
    exists|i: int| 0 <= i < items.len() && is_wide_item(#[trigger] items[i])
}

/// A class that matches broadly: `.`, an empty negated class, or a bracketed class with a
/// range of more than 20 code points past its start: low.
pub open spec fn class_risks(cls: SClass, loc: Seq<char>) -> Seq<SRisk> {
    match cls {
        SClass::Any => seq![SRisk {
            level: RiskLevel::Low,
            description: "Use of '.' (any character) - may match more than intended"@,
            suggestion: "Consider using a more specific character class if possible. Example: [^\\n] instead of . when matching lines."@,
            location: loc,
        }],
        SClass::Class(items) => wide_risks(items, loc),
        SClass::NegatedClass(items) => if items.len() == 0 {
            seq![SRisk {
                level: RiskLevel::Low,
                description: "Empty negated character class matches any character"@,
                suggestion: "Use a more specific character class to limit what can be matched."@,
                location: loc,
            }]
        } else {
            wide_risks(items, loc)
        },
        _ => Seq::empty(),
    }
}

pub open spec fn wide_risks(items: Seq<CharClassItem>, loc: Seq<char>) -> Seq<SRisk> {
    if has_wide_range(items) {
        seq![SRisk {
            level: RiskLevel::Low,
            description: "Character class contains a wide range of characters"@,
            suggestion: "Narrow the character range if possible to reduce matching possibilities."@,
            location: loc,
        }]
    } else {
        Seq::empty()
    }
}

/// All findings for an expression at location `loc`, in pre-order: a node's own findings,
/// then those of its parts, whose locations extend `loc` (`.*` for a repetition's operand,
/// `.()` for a group's content, `.i` for item `i` of a sequence, `.|i` for branch `i`).
pub open spec fn spec_risks(e: SExpr, loc: Seq<char>) -> Seq<SRisk>
    decreases e,
{
    match e {
        SExpr::Repetition { expr, kind, greedy } => nested_risks(*expr, kind, loc) + greedy_risks(*expr, greedy, loc)
            + spec_risks(*expr, loc + ".*"@),
        SExpr::Group { expr, kind } => group_risks(*expr, kind, loc) + spec_risks(*expr, loc + ".()"@),
        SExpr::Concat(items) => adjacent_risks(items, items.len() - 1, loc) + risks_of_items(items, loc, "."@),
        SExpr::Alternation(items) => alternation_risks(items, loc) + risks_of_items(items, loc, ".|"@),
        SExpr::Class(cls) => class_risks(cls, loc),
        _ => Seq::empty(),
    }
}

/// The findings of the items, item `i` at location `loc + sep + i`.
pub open spec fn risks_of_items(items: Seq<SExpr>, loc: Seq<char>, sep: Seq<char>) -> Seq<SRisk>
    decreases items,
{
    if items.len() == 0 {
        Seq::empty()
    } else {
        risks_of_items(items.drop_last(), loc, sep) + spec_risks(items.last(), loc + sep + decimal((items.len() - 1) as nat))
    }
}

/// The most severe level among the findings, or `Safe` when there is none.
pub open spec fn max_level(rs: Seq<SRisk>) -> RiskLevel
    decreases rs.len(),
{
    if rs.len() == 0 {
        RiskLevel::Safe
    } else {
        let m = max_level(rs.drop_last());
        if level_rank(rs.last().level) >= level_rank(m) { rs.last().level } else { m }
    }
}

pub open spec fn summary_text(l: RiskLevel) -> Seq<char> {
    match l {
        RiskLevel::Safe => "No significant ReDoS risks detected."@,
        RiskLevel::Low => "Low risk - Minor performance concerns."@,
        RiskLevel::Medium => "Medium risk - May cause slowdowns on certain inputs."@,
        RiskLevel::High => "High risk - Likely to cause ReDoS on malicious inputs."@,
        RiskLevel::Critical => "Critical risk - Almost guaranteed ReDoS on crafted inputs."@,
    }
}

} // verus!

verus! {

/// Looks for patterns that invite catastrophic backtracking.
pub struct ReDoSAnalyzer;

impl ReDoSAnalyzer {
    pub fn new() -> (a: Self) {
        ReDoSAnalyzer
    }

    pub fn contains_quantifier(&self, expr: &Expr) -> (b: bool)
        ensures
            b == spec_contains_quantifier(expr@),
        decreases expr,
    {
        match expr {
            Expr::Repetition { .. } => true,
            Expr::Concat(items) => self.any_contains_quantifier(items),
            Expr::Alternation(items) => self.any_contains_quantifier(items),
            Expr::Group { expr: inner, .. } => self.contains_quantifier(inner),
            _ => false,
        }
    }

    fn any_contains_quantifier(&self, items: &Vec<Expr>) -> (b: bool)
        ensures
            b == any_contains_quantifier(view_seq(items@)),
        decreases items,
    {
        let ghost vs = view_seq(items@);
        let mut i: usize = 0;
        while i < items.len()
            invariant
                i <= items.len(),
                vs == view_seq(items@),
                !any_contains_quantifier(vs.take(i as int)),
            decreases items.len() - i,
        {
            proof {
                assert(decreases_to!(items => items@[i as int]));
            }
            let b = self.contains_quantifier(&items[i]);
            assert(vs.take(i + 1).drop_last() =~= vs.take(i as int));
            if b {
                proof {
                    lemma_any_prefix(vs, i + 1, 0);
                }
                return true;
            }
            i += 1;
        }
        assert(vs.take(items.len() as int) =~= vs);
        false
    }

    /// The number of repetitions in the expression (at most `usize::MAX`).
    pub fn count_quantifiers(&self, expr: &Expr) -> (n: usize)
        ensures
            n == if spec_count_quantifiers(expr@) > usize::MAX { usize::MAX as nat } else { spec_count_quantifiers(expr@) },
        decreases expr,
    {
        match expr {
            Expr::Repetition { expr: inner, .. } => 1usize.saturating_add(self.count_quantifiers(inner)),
            Expr::Concat(items) => self.sum_count_quantifiers(items),
            Expr::Alternation(items) => self.sum_count_quantifiers(items),
            Expr::Group { expr: inner, .. } => self.count_quantifiers(inner),
            _ => 0,
        }
    }

    fn sum_count_quantifiers(&self, items: &Vec<Expr>) -> (n: usize)
        ensures
            n == if sum_count_quantifiers(view_seq(items@)) > usize::MAX { usize::MAX as nat } else { sum_count_quantifiers(view_seq(items@)) },
        decreases items,
    {
        let ghost vs = view_seq(items@);
        let mut total: usize = 0;
        let mut i: usize = 0;
        while i < items.len()
            invariant
                i <= items.len(),
                vs == view_seq(items@),
                total == if sum_count_quantifiers(vs.take(i as int)) > usize::MAX { usize::MAX as nat } else { sum_count_quantifiers(vs.take(i as int)) },
            decreases items.len() - i,
        {
            proof {
                assert(decreases_to!(items => items@[i as int]));
            }
            let c = self.count_quantifiers(&items[i]);
            assert(vs.take(i + 1).drop_last() =~= vs.take(i as int));
            total = total.saturating_add(c);
            i += 1;
        }
        assert(vs.take(items.len() as int) =~= vs);
        total
    }

    fn contains_multiple_quantifiers(&self, expr: &Expr) -> (b: bool)
        ensures
            b == (spec_count_quantifiers(expr@) >= 2),
    {
        self.count_quantifiers(expr) >= 2
    }

    fn contains_alternation(&self, expr: &Expr) -> (b: bool)
        ensures
            b == spec_contains_alternation(expr@),
        decreases expr,
    {
        match expr {
            Expr::Alternation(_) => true,
            Expr::Concat(items) => self.any_contains_alternation(items),
            Expr::Repetition { expr: inner, .. } => self.contains_alternation(inner),
            Expr::Group { expr: inner, .. } => self.contains_alternation(inner),
            _ => false,
        }
    }

    fn any_contains_alternation(&self, items: &Vec<Expr>) -> (b: bool)
        ensures
            b == any_contains_alternation(view_seq(items@)),
        decreases items,
    {
        let ghost vs = view_seq(items@);
        let mut i: usize = 0;
        while i < items.len()
            invariant
                i <= items.len(),
                vs == view_seq(items@),
                !any_contains_alternation(vs.take(i as int)),
            decreases items.len() - i,
        {
            proof {
                assert(decreases_to!(items => items@[i as int]));
            }
            let b = self.contains_alternation(&items[i]);
            assert(vs.take(i + 1).drop_last() =~= vs.take(i as int));
            if b {
                proof {
                    lemma_any_prefix(vs, i + 1, 1);
                }
                return true;
            }
            i += 1;
        }
        assert(vs.take(items.len() as int) =~= vs);
        false
    }

    fn is_quantifier(&self, expr: &Expr) -> (b: bool)
        ensures
            b == (expr@ is Repetition),
    {
        match expr {
            Expr::Repetition { .. } => true,
            _ => false,
        }
    }

    pub fn can_match_empty(&self, expr: &Expr) -> (b: bool)
        ensures
            b == spec_can_match_empty(expr@),
        decreases expr,
    {
        match expr {
            Expr::Empty => true,
            Expr::Literal(_) => false,
            Expr::Class(_) => false,
            Expr::Anchor(_) => true,
            Expr::Concat(items) => self.all_can_match_empty(items),
            Expr::Alternation(items) => self.any_can_match_empty(items),
            Expr::Repetition { kind, .. } => match kind {
                RepetitionKind::ZeroOrMore | RepetitionKind::ZeroOrOne => true,
                RepetitionKind::Exactly(n) => *n == 0,
                RepetitionKind::Range(min, _) => *min == 0,
                _ => false,
            },
            Expr::Group { expr: inner, .. } => self.can_match_empty(inner),
            Expr::Backreference(_) => false,
        }
    }

    fn all_can_match_empty(&self, items: &Vec<Expr>) -> (b: bool)
        ensures
            b == all_can_match_empty(view_seq(items@)),
        decreases items,
    {
        let ghost vs = view_seq(items@);
        let mut i: usize = 0;
        while i < items.len()
            invariant
                i <= items.len(),
                vs == view_seq(items@),
                all_can_match_empty(vs.take(i as int)),
            decreases items.len() - i,
        {
            proof {
                assert(decreases_to!(items => items@[i as int]));
            }
            let b = self.can_match_empty(&items[i]);
            assert(vs.take(i + 1).drop_last() =~= vs.take(i as int));
            if !b {
                proof {
                    lemma_any_prefix(vs, i + 1, 2);
                }
                return false;
            }
            i += 1;
        }
        assert(vs.take(items.len() as int) =~= vs);
        true
    }

    fn any_can_match_empty(&self, items: &Vec<Expr>) -> (b: bool)
        ensures
            b == any_can_match_empty(view_seq(items@)),
        decreases items,
    {
        let ghost vs = view_seq(items@);
        let mut i: usize = 0;
        while i < items.len()
            invariant
                i <= items.len(),
                vs == view_seq(items@),
                !any_can_match_empty(vs.take(i as int)),
            decreases items.len() - i,
        {
            proof {
                assert(decreases_to!(items => items@[i as int]));
            }
            let b = self.can_match_empty(&items[i]);
            assert(vs.take(i + 1).drop_last() =~= vs.take(i as int));
            if b {
                proof {
                    lemma_any_prefix(vs, i + 1, 3);
                }
                return true;
            }
            i += 1;
        }
        assert(vs.take(items.len() as int) =~= vs);
        false
    }
}

/// Whether the prefix-closed property `which` of the first `n` items decides that of all:
/// 0 and 1 ("some item contains a quantifier / an alternation") and 3 ("some item can
/// match empty") hold of all items when they hold of a prefix; 2 ("every item can match
/// empty") fails for all items when it fails for a prefix.
pub open spec fn prefix_property(which: int, vs: Seq<SExpr>) -> bool {
    if which == 0 {
        any_contains_quantifier(vs)
    } else if which == 1 {
        any_contains_alternation(vs)
    } else if which == 2 {
        !all_can_match_empty(vs)
    } else {
        any_can_match_empty(vs)
    }
}

proof fn lemma_any_prefix(vs: Seq<SExpr>, n: int, which: int)
    requires
        0 < n <= vs.len(),
        prefix_property(which, vs.take(n)),
    ensures
        prefix_property(which, vs),
    decreases vs.len() - n,
{
    if n < vs.len() {
        assert(vs.take(n + 1).drop_last() =~= vs.take(n));
        lemma_any_prefix(vs, n + 1, which);
    } else {
        assert(vs.take(n) =~= vs);
    }
}

} // verus!

verus! {

/// Whether some range is non-empty.
fn ranges_nonempty(rs: &Vec<(char, char)>) -> (b: bool)
    ensures
        b == exists|c: char| in_ranges(rs@, c),
{
    let mut i: usize = 0;
    while i < rs.len()
        invariant
            i <= rs.len(),
            forall|k: int| 0 <= k < i ==> rs@[k].0 > rs@[k].1,
        decreases rs.len() - i,
    {
        if rs[i].0 <= rs[i].1 {
            assert(in_ranges(rs@, rs@[i as int].0));
            return true;
        }
        i += 1;
    }
    assert forall|c: char| !in_ranges(rs@, c) by {
        if in_ranges(rs@, c) {
            let k = choose|k: int| 0 <= k < rs@.len() && rs@[k].0 <= c && c <= #[trigger] rs@[k].1;
            assert(rs@[k].0 > rs@[k].1);
        }
    }
    false
}

/// Whether a character lies in both range lists.
fn ranges_intersect(ra: &Vec<(char, char)>, rb: &Vec<(char, char)>) -> (b: bool)
    ensures
        b == exists|c: char| in_ranges(ra@, c) && in_ranges(rb@, c),
{
    let mut i: usize = 0;
    while i < ra.len()
        invariant
            i <= ra.len(),
            forall|k: int, m: int| 0 <= k < i && 0 <= m < rb@.len() ==> !(#[trigger] ra@[k].0 <= rb@[m].1 && #[trigger] rb@[m].0 <= ra@[k].1
                && ra@[k].0 <= ra@[k].1 && rb@[m].0 <= rb@[m].1),
        decreases ra.len() - i,
    {
        let mut j: usize = 0;
        while j < rb.len()
            invariant
                i < ra.len(),
                j <= rb.len(),
                forall|k: int, m: int| 0 <= k < i && 0 <= m < rb@.len() ==> !(#[trigger] ra@[k].0 <= rb@[m].1 && #[trigger] rb@[m].0 <= ra@[k].1
                    && ra@[k].0 <= ra@[k].1 && rb@[m].0 <= rb@[m].1),
                forall|m: int| 0 <= m < j ==> !(ra@[i as int].0 <= #[trigger] rb@[m].1 && rb@[m].0 <= ra@[i as int].1
                    && ra@[i as int].0 <= ra@[i as int].1 && rb@[m].0 <= rb@[m].1),
            decreases rb.len() - j,
        {
            let (alo, ahi) = ra[i];
            let (blo, bhi) = rb[j];
            let lo = if alo < blo { blo } else { alo };
            let hi = if ahi < bhi { ahi } else { bhi };
            if lo <= hi {
                assert(in_ranges(ra@, lo) && in_ranges(rb@, lo)) by {
                    assert(ra@[i as int].0 <= lo && lo <= ra@[i as int].1);
                    assert(rb@[j as int].0 <= lo && lo <= rb@[j as int].1);
                }
                return true;
            }
            j += 1;
        }
        i += 1;
    }
    assert forall|c: char| !(in_ranges(ra@, c) && in_ranges(rb@, c)) by {
        if in_ranges(ra@, c) && in_ranges(rb@, c) {
            let k = choose|k: int| 0 <= k < ra@.len() && ra@[k].0 <= c && c <= #[trigger] ra@[k].1;
            let m = choose|m: int| 0 <= m < rb@.len() && rb@[m].0 <= c && c <= #[trigger] rb@[m].1;
            assert(ra@[k].0 <= rb@[m].1 && rb@[m].0 <= ra@[k].1);
        }
    }
    false
}

proof fn lemma_nonempty_char_set(e: SExpr, rs: Seq<(char, char)>)
    requires
        rs == char_ranges(e),
    ensures
        (exists|c: char| in_ranges(rs, c)) == (exists|c: char| char_set(e).contains(c)),
{
    if exists|c: char| in_ranges(rs, c) {
        let c = choose|c: char| in_ranges(rs, c);
        assert(char_set(e).contains(c));
    }
    if exists|c: char| char_set(e).contains(c) {
        let c = choose|c: char| char_set(e).contains(c);
        assert(in_ranges(rs, c));
    }
}

proof fn lemma_common_char(a: SExpr, b: SExpr, ra: Seq<(char, char)>, rb: Seq<(char, char)>)
    requires
        ra == char_ranges(a),
        rb == char_ranges(b),
    ensures
        (exists|c: char| in_ranges(ra, c) && in_ranges(rb, c)) == (exists|c: char| char_set(a).contains(c) && char_set(b).contains(c)),
{
    if exists|c: char| in_ranges(ra, c) && in_ranges(rb, c) {
        let c = choose|c: char| in_ranges(ra, c) && in_ranges(rb, c);
        assert(char_set(a).contains(c) && char_set(b).contains(c));
    }
    if exists|c: char| char_set(a).contains(c) && char_set(b).contains(c) {
        let c = choose|c: char| char_set(a).contains(c) && char_set(b).contains(c);
        assert(in_ranges(ra, c) && in_ranges(rb, c));
    }
}

impl ReDoSAnalyzer {
    fn collect_character_set(&self, expr: &Expr, set: &mut Vec<(char, char)>)
        ensures
            final(set)@ == old(set)@ + char_ranges(expr@),
        decreases expr,
    {
        match expr {
            Expr::Literal(c) => {
                set.push((*c, *c));
            },
            Expr::Class(cls) => match cls {
                CharClass::Literal(c) => {
                    set.push((*c, *c));
                },
                CharClass::Range(start, end) => {
                    set.push((*start, *end));
                },
                CharClass::Digit => {
                    set.push(('0', '9'));
                },
                CharClass::Word => {
                    set.push(('0', '9'));
                    set.push(('a', 'z'));
                    set.push(('A', 'Z'));
                    set.push(('_', '_'));
                },
                CharClass::Whitespace => {
                    set.push((' ', ' '));
                    set.push(('\t', '\t'));
                    set.push(('\n', '\n'));
                    set.push(('\r', '\r'));
                },
                _ => {},
            },
            Expr::Concat(items) => self.collect_items(items, set),
            Expr::Alternation(items) => self.collect_items(items, set),
            Expr::Repetition { expr: inner, .. } => self.collect_character_set(inner, set),
            Expr::Group { expr: inner, .. } => self.collect_character_set(inner, set),
            _ => {},
        }
        assert(final(set)@ =~= old(set)@ + char_ranges(expr@));
    }

    fn collect_items(&self, items: &Vec<Expr>, set: &mut Vec<(char, char)>)
        ensures
            final(set)@ == old(set)@ + char_ranges_of(view_seq(items@)),
        decreases items,
    {
        let ghost vs = view_seq(items@);
        let ghost start = set@;
        let mut i: usize = 0;
        assert(start + char_ranges_of(vs.take(0)) =~= start);
        while i < items.len()
            invariant
                i <= items.len(),
                vs == view_seq(items@),
                set@ == start + char_ranges_of(vs.take(i as int)),
            decreases items.len() - i,
        {
            proof {
                assert(decreases_to!(items => items@[i as int]));
            }
            self.collect_character_set(&items[i], set);
            assert(vs.take(i + 1).drop_last() =~= vs.take(i as int));
            assert(set@ =~= start + char_ranges_of(vs.take(i + 1)));
            i += 1;
        }
        assert(vs.take(items.len() as int) =~= vs);
    }

    /// The character ranges attributed to an expression.
    fn get_character_set(&self, expr: &Expr) -> (r: Vec<(char, char)>)
        ensures
            r@ == char_ranges(expr@),
    {
        let mut set: Vec<(char, char)> = Vec::new();
        self.collect_character_set(expr, &mut set);
        assert(set@ =~= char_ranges(expr@));
        set
    }

    fn character_sets_overlap(&self, a: &Expr, b: &Expr) -> (r: bool)
        ensures
            r == spec_sets_overlap(a@, b@),
    {
        let chars_a = self.get_character_set(a);
        let chars_b = self.get_character_set(b);
        let ne_a = ranges_nonempty(&chars_a);
        let ne_b = ranges_nonempty(&chars_b);
        proof {
            lemma_nonempty_char_set(a@, chars_a@);
        }
        proof {
            lemma_nonempty_char_set(b@, chars_b@);
        }
        if !ne_a || !ne_b {
            return true;
        }
        let r = ranges_intersect(&chars_a, &chars_b);
        proof {
            lemma_common_char(a@, b@, chars_a@, chars_b@);
        }
        r
    }

    fn can_match_same_string(&self, a: &Expr, b: &Expr) -> (r: bool)
        ensures
            r == spec_sets_overlap(a@, b@),
    {
        let chars_a = self.get_character_set(a);
        let chars_b = self.get_character_set(b);
        let ne_a = ranges_nonempty(&chars_a);
        let ne_b = ranges_nonempty(&chars_b);
        proof {
            lemma_nonempty_char_set(a@, chars_a@);
        }
        proof {
            lemma_nonempty_char_set(b@, chars_b@);
        }
        if !ne_a || !ne_b {
            return true;
        }
        let r = ranges_intersect(&chars_a, &chars_b);
        proof {
            lemma_common_char(a@, b@, chars_a@, chars_b@);
        }
        r
    }
}

} // verus!

verus! {

proof fn lemma_risks_view_push(v: Seq<ReDoSRisk>, r: ReDoSRisk)
    ensures
        risks_view(v.push(r)) == risks_view(v).push(r@),
{
    assert(risks_view(v.push(r)) =~= risks_view(v).push(r@));
}

fn push_risk(risks: &mut Vec<ReDoSRisk>, level: RiskLevel, description: String, suggestion: String, location: String)
    ensures
        risks_view(final(risks)@) == risks_view(old(risks)@).push(
            SRisk { level, description: description@, suggestion: suggestion@, location: location@ },
        ),
{
    let r = ReDoSRisk { level, description, suggestion, location };
    proof {
        lemma_risks_view_push(risks@, r);
    }
    risks.push(r);
}

fn write_kind_debug(out: &mut String, kind: &RepetitionKind)
    ensures
        final(out)@ == old(out)@ + kind_debug(*kind),
{
    match kind {
        RepetitionKind::ZeroOrMore => push_str(out, "ZeroOrMore"),
        RepetitionKind::OneOrMore => push_str(out, "OneOrMore"),
        RepetitionKind::ZeroOrOne => push_str(out, "ZeroOrOne"),
        RepetitionKind::Exactly(n) => {
            push_str(out, "Exactly(");
            push_decimal(out, *n as u64);
            push_str(out, ")");
        },
        RepetitionKind::AtLeast(n) => {
            push_str(out, "AtLeast(");
            push_decimal(out, *n as u64);
            push_str(out, ")");
        },
        RepetitionKind::Range(a, b) => {
            push_str(out, "Range(");
            push_decimal(out, *a as u64);
            push_str(out, ", ");
            push_decimal(out, *b as u64);
            push_str(out, ")");
        },
    }
    assert(final(out)@ =~= old(out)@ + kind_debug(*kind));
}

fn is_wide_range(item: &CharClassItem) -> (b: bool)
    ensures
        b == is_wide_item(*item),
{
    match item {
        CharClassItem::Range(start, end) => (*end as u32).saturating_sub(*start as u32) > 20,
        _ => false,
    }
}

fn any_wide_range(items: &Vec<CharClassItem>) -> (b: bool)
    ensures
        b == has_wide_range(items@),
{
    let mut i: usize = 0;
    while i < items.len()
        invariant
            i <= items.len(),
            forall|k: int| 0 <= k < i ==> !is_wide_item(#[trigger] items@[k]),
        decreases items.len() - i,
    {
        if is_wide_range(&items[i]) {
            return true;
        }
        i += 1;
    }
    false
}

impl ReDoSAnalyzer {
    fn check_nested_quantifiers(&self, inner: &Expr, outer_kind: &RepetitionKind, risks: &mut Vec<ReDoSRisk>, location: &str)
        ensures
            risks_view(final(risks)@) == risks_view(old(risks)@) + nested_risks(inner@, *outer_kind, location@),
    {
        if self.contains_quantifier(inner) {
            let inner_has_many = self.contains_multiple_quantifiers(inner);
            let level = if inner_has_many { RiskLevel::Critical } else { RiskLevel::High };
            let mut description = String::new();
            push_str(&mut description, "Nested quantifiers detected: outer ");
            write_kind_debug(&mut description, outer_kind);
            push_str(&mut description, " contains inner quantifier");
            let mut suggestion = String::new();
            match outer_kind {
                RepetitionKind::ZeroOrMore => push_str(&mut suggestion, "Consider using a more specific pattern or making the inner quantifier possessive. Example: (a*)* -> (a)* or use atomic groups if supported."),
                RepetitionKind::OneOrMore => push_str(&mut suggestion, "Nested + quantifiers cause exponential backtracking. Simplify the pattern or use non-backtracking constructs."),
                _ => push_str(&mut suggestion, "Flatten the nested quantifiers where possible. Example: (a{2})* -> a*"),
            }
            assert(description@ =~= "Nested quantifiers detected: outer "@ + kind_debug(*outer_kind) + " contains inner quantifier"@);
            assert(suggestion@ =~= nested_suggestion(*outer_kind));
            push_risk(risks, level, description, suggestion, owned(location));
        }
        assert(risks_view(risks@) =~= risks_view(old(risks)@) + nested_risks(inner@, *outer_kind, location@));
    }

    /// Adjacent repetitions that overlap are reported by the sequence check; this check adds nothing.
    fn check_adjacent_overlap(&self, _expr: &Expr, _risks: &mut Vec<ReDoSRisk>, _location: &str)
        ensures
            final(_risks)@ == old(_risks)@,
    {
    }

    fn check_greedy_backtracking(&self, inner: &Expr, greedy: bool, risks: &mut Vec<ReDoSRisk>, location: &str)
        ensures
            risks_view(final(risks)@) == risks_view(old(risks)@) + greedy_risks(inner@, greedy, location@),
    {
        if greedy && self.can_match_empty(inner) {
            push_risk(
                risks,
                RiskLevel::Medium,
                owned("Greedy quantifier on subexpression that can match empty string"),
                owned("Consider using a non-greedy quantifier (add ?) or ensure the subexpression matches at least one character."),
                owned(location),
            );
        }
        assert(risks_view(risks@) =~= risks_view(old(risks)@) + greedy_risks(inner@, greedy, location@));
    }

    fn check_group_quantifier_combination(&self, inner: &Expr, group_kind: &GroupKind, risks: &mut Vec<ReDoSRisk>, location: &str)
        ensures
            risks_view(final(risks)@) == risks_view(old(risks)@) + group_risks(inner@, *group_kind, location@),
    {
        let plain = match group_kind {
            GroupKind::Capturing(_) | GroupKind::NonCapturing => true,
            _ => false,
        };
        if plain {
            if self.contains_alternation(inner) && self.contains_quantifier(inner) {
                push_risk(
                    risks,
                    RiskLevel::High,
                    owned("Group contains both alternation and quantifiers - high backtracking potential"),
                    owned("Consider restructuring to avoid alternation inside quantified groups, or use atomic groups/ possessive quantifiers if supported."),
                    owned(location),
                );
            }
        }
        assert(risks_view(risks@) =~= risks_view(old(risks)@) + group_risks(inner@, *group_kind, location@));
    }

    fn check_concat_overlapping_quantifiers(&self, items: &Vec<Expr>, risks: &mut Vec<ReDoSRisk>, location: &str)
        ensures
            risks_view(final(risks)@) == risks_view(old(risks)@) + adjacent_risks(view_seq(items@), items@.len() - 1, location@),
    {
        let ghost vs = view_seq(items@);
        let ghost start = risks_view(risks@);
        let n = items.len().saturating_sub(1);
        let mut i: usize = 0;
        assert(start + adjacent_risks(vs, 0, location@) =~= start);
        while i < n
            invariant
                i <= n,
                n == if items.len() == 0 { 0 } else { items.len() - 1 },
                vs == view_seq(items@),
                risks_view(risks@) == start + adjacent_risks(vs, i as int, location@),
            decreases n - i,
        {
            let a = &items[i];
            let b = &items[i + 1];
            if self.is_quantifier(a) && self.is_quantifier(b) {
                let has_overlap = self.character_sets_overlap(a, b);
                let level = if has_overlap { RiskLevel::High } else { RiskLevel::Medium };
                let desc = if has_overlap {
                    owned("Adjacent quantifiers with overlapping character sets detected")
                } else {
                    owned("Adjacent quantifiers detected - may cause backtracking issues")
                };
                let mut loc = owned(location);
                push_str(&mut loc, ".concat[");
                push_decimal(&mut loc, i as u64);
                push_str(&mut loc, "..");
                push_decimal(&mut loc, (i + 1) as u64);
                push_str(&mut loc, "]");
                assert(loc@ =~= location@ + ".concat["@ + decimal(i as nat) + ".."@ + decimal((i + 1) as nat) + "]"@);
                push_risk(
                    risks,
                    level,
                    desc,
                    owned("Combine adjacent quantifiers where possible. Example: a*a* -> a* or a+a* -> a+"),
                    loc,
                );
            }
            assert(risks_view(risks@) =~= start + adjacent_risks(vs, i + 1, location@));
            i += 1;
        }
        if items.len() == 0 {
            assert(adjacent_risks(vs, items@.len() - 1, location@) =~= Seq::<SRisk>::empty());
        }
    }

    fn check_alternation_overlap(&self, branches: &Vec<Expr>, risks: &mut Vec<ReDoSRisk>, location: &str)
        ensures
            risks_view(final(risks)@) == risks_view(old(risks)@) + alternation_risks(view_seq(branches@), location@),
    {
        let ghost vs = view_seq(branches@);
        let ghost start = risks_view(risks@);
        if branches.len() < 2 {
            assert(risks_view(risks@) =~= start + alternation_risks(vs, location@));
            return;
        }
        let has_quantified_branch = self.any_contains_quantifier(branches);
        if has_quantified_branch {
            let n = branches.len();
            let mut i: usize = 0;
            assert(start + alternation_pairs(vs, 0, location@) =~= start);
            while i < n
                invariant
                    i <= n,
                    n == branches.len(),
                    vs == view_seq(branches@),
                    risks_view(risks@) == start + alternation_pairs(vs, i as int, location@),
                decreases n - i,
            {
                let mut j: usize = i + 1;
                assert(alternation_row(vs, i as int, j as int, location@) =~= Seq::<SRisk>::empty());
                while j < n
                    invariant
                        i < n,
                        i + 1 <= j <= n,
                        n == branches.len(),
                        vs == view_seq(branches@),
                        risks_view(risks@) == start + alternation_pairs(vs, i as int, location@) + alternation_row(vs, i as int, j as int, location@),
                    decreases n - j,
                {
                    if self.can_match_same_string(&branches[i], &branches[j]) {
                        let mut desc = owned("Alternation branches ");
                        push_decimal(&mut desc, i as u64);
                        push_str(&mut desc, " and ");
                        push_decimal(&mut desc, j as u64);
                        push_str(&mut desc, " may match the same string, combined with quantifiers can cause backtracking");
                        let mut loc = owned(location);
                        push_str(&mut loc, ".alt[");
                        push_decimal(&mut loc, i as u64);
                        push_str(&mut loc, "|");
                        push_decimal(&mut loc, j as u64);
                        push_str(&mut loc, "]");
                        assert(desc@ =~= alternation_risk(i as int, j as int, location@).description);
                        assert(loc@ =~= alternation_risk(i as int, j as int, location@).location);
                        push_risk(
                            risks,
                            RiskLevel::Medium,
                            desc,
                            owned("Reorder alternation branches from most specific to most general, or remove redundant branches."),
                            loc,
                        );
                    }
                    assert(risks_view(risks@) =~= start + alternation_pairs(vs, i as int, location@) + alternation_row(vs, i as int, j + 1, location@));
                    j += 1;
                }
                assert(risks_view(risks@) =~= start + alternation_pairs(vs, i + 1, location@));
                i += 1;
            }
        } else {
            assert(risks_view(risks@) =~= start + alternation_risks(vs, location@));
        }
    }

    fn check_overly_broad_class(&self, cls: &CharClass, risks: &mut Vec<ReDoSRisk>, location: &str)
        ensures
            risks_view(final(risks)@) == risks_view(old(risks)@) + class_risks(cls@, location@),
    {
        match cls {
            CharClass::Any => {
                push_risk(
                    risks,
                    RiskLevel::Low,
                    owned("Use of '.' (any character) - may match more than intended"),
                    owned("Consider using a more specific character class if possible. Example: [^\\n] instead of . when matching lines."),
                    owned(location),
                );
            },
            CharClass::Class(items) => self.check_wide_range(items, risks, location),
            CharClass::NegatedClass(items) => {
                if items.len() == 0 {
                    push_risk(
                        risks,
                        RiskLevel::Low,
                        owned("Empty negated character class matches any character"),
                        owned("Use a more specific character class to limit what can be matched."),
                        owned(location),
                    );
                } else {
                    self.check_wide_range(items, risks, location);
                }
            },
            _ => {},
        }
        assert(risks_view(risks@) =~= risks_view(old(risks)@) + class_risks(cls@, location@));
    }

    fn check_wide_range(&self, items: &Vec<CharClassItem>, risks: &mut Vec<ReDoSRisk>, location: &str)
        ensures
            risks_view(final(risks)@) == risks_view(old(risks)@) + wide_risks(items@, location@),
    {
        if any_wide_range(items) {
            push_risk(
                risks,
                RiskLevel::Low,
                owned("Character class contains a wide range of characters"),
                owned("Narrow the character range if possible to reduce matching possibilities."),
                owned(location),
            );
        }
        assert(risks_view(risks@) =~= risks_view(old(risks)@) + wide_risks(items@, location@));
    }
}

} // verus!

verus! {

/// One numbered entry of a report.
pub open spec fn risk_entry(n: nat, r: SRisk) -> Seq<char> {
    "Risk #"@ + decimal(n) + " - "@ + level_name(r.level) + "\n"@ + "  Location: "@ + r.location + "\n"@
        + "  Issue: "@ + r.description + "\n"@ + "  Suggestion: "@ + r.suggestion + "\n\n"@
}

/// The entries of a report, numbered from 1.
pub open spec fn risk_entries(rs: Seq<SRisk>) -> Seq<char>
    decreases rs.len(),
{
    if rs.len() == 0 {
        Seq::empty()
    } else {
        risk_entries(rs.drop_last()) + risk_entry(rs.len(), rs.last())
    }
}

/// The text of a report on the analysis of `regex`.
pub open spec fn spec_report(rs: Seq<SRisk>, overall: RiskLevel, summary: Seq<char>, regex: Seq<char>) -> Seq<char> {
    "ReDoS Analysis Report for: "@ + regex + "\n"@ + "Overall Risk Level: "@ + level_name(overall) + "\n"@
        + "Summary: "@ + summary + "\n\n"@ + if rs.len() == 0 {
        "No ReDoS risks detected.\n"@
    } else {
        "Found "@ + decimal(rs.len()) + " potential risk(s):\n\n"@ + risk_entries(rs)
    }
}

fn write_level(out: &mut String, l: RiskLevel)
    ensures
        final(out)@ == old(out)@ + level_name(l),
{
    match l {
        RiskLevel::Safe => push_str(out, "Safe"),
        RiskLevel::Low => push_str(out, "Low"),
        RiskLevel::Medium => push_str(out, "Medium"),
        RiskLevel::High => push_str(out, "High"),
        RiskLevel::Critical => push_str(out, "Critical"),
    }
}

fn write_risk_entry(out: &mut String, n: u64, risk: &ReDoSRisk)
    ensures
        final(out)@ == old(out)@ + risk_entry(n as nat, risk@),
{
    push_str(out, "Risk #");
    push_decimal(out, n);
    push_str(out, " - ");
    write_level(out, risk.level);
    push_str(out, "\n");
    push_str(out, "  Location: ");
    push_str(out, risk.location.as_str());
    push_str(out, "\n");
    push_str(out, "  Issue: ");
    push_str(out, risk.description.as_str());
    push_str(out, "\n");
    push_str(out, "  Suggestion: ");
    push_str(out, risk.suggestion.as_str());
    push_str(out, "\n\n");
    assert(final(out)@ =~= old(out)@ + risk_entry(n as nat, risk@));
}

fn level_rank_of(l: RiskLevel) -> (r: u8)
    ensures
        r == level_rank(l),
{
    match l {
        RiskLevel::Safe => 0,
        RiskLevel::Low => 1,
        RiskLevel::Medium => 2,
        RiskLevel::High => 3,
        RiskLevel::Critical => 4,
    }
}

impl ReDoSAnalyzer {
    fn analyze_expr(&self, expr: &Expr, risks: &mut Vec<ReDoSRisk>, location: &str)
        ensures
            risks_view(final(risks)@) == risks_view(old(risks)@) + spec_risks(expr@, location@),
        decreases expr,
    {
        let ghost start = risks_view(risks@);
        match expr {
            Expr::Repetition { expr: inner, kind, greedy } => {
                self.check_nested_quantifiers(inner, kind, risks, location);
                self.check_adjacent_overlap(expr, risks, location);
                self.check_greedy_backtracking(inner, *greedy, risks, location);
                let mut new_location = owned(location);
                push_str(&mut new_location, ".*");
                self.analyze_expr(inner, risks, new_location.as_str());
            },
            Expr::Group { expr: inner, kind } => {
                self.check_group_quantifier_combination(inner, kind, risks, location);
                let mut new_location = owned(location);
                push_str(&mut new_location, ".()");
                self.analyze_expr(inner, risks, new_location.as_str());
            },
            Expr::Concat(items) => {
                self.check_concat_overlapping_quantifiers(items, risks, location);
                self.analyze_items(items, risks, location, ".");
            },
            Expr::Alternation(branches) => {
                self.check_alternation_overlap(branches, risks, location);
                self.analyze_items(branches, risks, location, ".|");
            },
            Expr::Class(cls) => {
                self.check_overly_broad_class(cls, risks, location);
            },
            _ => {},
        }
        assert(risks_view(risks@) =~= start + spec_risks(expr@, location@));
    }

    fn analyze_items(&self, items: &Vec<Expr>, risks: &mut Vec<ReDoSRisk>, location: &str, sep: &str)
        ensures
            risks_view(final(risks)@) == risks_view(old(risks)@) + risks_of_items(view_seq(items@), location@, sep@),
        decreases items,
    {
        let ghost vs = view_seq(items@);
        let ghost start = risks_view(risks@);
        let mut i: usize = 0;
        assert(start + risks_of_items(vs.take(0), location@, sep@) =~= start);
        while i < items.len()
            invariant
                i <= items.len(),
                vs == view_seq(items@),
                risks_view(risks@) == start + risks_of_items(vs.take(i as int), location@, sep@),
            decreases items.len() - i,
        {
            proof {
                assert(decreases_to!(items => items@[i as int]));
            }
            let mut new_location = owned(location);
            push_str(&mut new_location, sep);
            push_decimal(&mut new_location, i as u64);
            self.analyze_expr(&items[i], risks, new_location.as_str());
            assert(vs.take(i + 1).drop_last() =~= vs.take(i as int));
            assert(risks_view(risks@) =~= start + risks_of_items(vs.take(i + 1), location@, sep@));
            i += 1;
        }
        assert(vs.take(items.len() as int) =~= vs);
    }

    /// Analyzes an expression: its findings, their most severe level, and a summary.
    pub fn analyze(&self, expr: &Expr) -> (r: AnalysisResult)
        ensures
            risks_view(r.risks@) == spec_risks(expr@, "root"@),
            r.overall_level == max_level(spec_risks(expr@, "root"@)),
            r.summary@ == summary_text(r.overall_level),
    {
        let mut risks: Vec<ReDoSRisk> = Vec::new();
        assert(risks_view(risks@) =~= Seq::<SRisk>::empty());
        self.analyze_expr(expr, &mut risks, "root");
        assert(risks_view(risks@) =~= spec_risks(expr@, "root"@));
        let ghost rs = risks_view(risks@);
        let mut overall_level = RiskLevel::Safe;
        let mut i: usize = 0;
        while i < risks.len()
            invariant
                i <= risks.len(),
                rs == risks_view(risks@),
                overall_level == max_level(rs.take(i as int)),
            decreases risks.len() - i,
        {
            let l = risks[i].level;
            assert(rs.take(i + 1).drop_last() =~= rs.take(i as int));
            if level_rank_of(l) >= level_rank_of(overall_level) {
                overall_level = l;
            }
            i += 1;
        }
        assert(rs.take(risks.len() as int) =~= rs);
        let summary = match overall_level {
            RiskLevel::Safe => owned("No significant ReDoS risks detected."),
            RiskLevel::Low => owned("Low risk - Minor performance concerns."),
            RiskLevel::Medium => owned("Medium risk - May cause slowdowns on certain inputs."),
            RiskLevel::High => owned("High risk - Likely to cause ReDoS on malicious inputs."),
            RiskLevel::Critical => owned("Critical risk - Almost guaranteed ReDoS on crafted inputs."),
        };
        AnalysisResult { risks, overall_level, summary }
    }

    /// A textual report of an analysis of `regex`.
    pub fn format_report(&self, result: &AnalysisResult, regex: &str) -> (r: String)
        ensures
            r@ == spec_report(risks_view(result.risks@), result.overall_level, result.summary@, regex@),
    {
        let ghost rs = risks_view(result.risks@);
        let mut report = String::new();
        push_str(&mut report, "ReDoS Analysis Report for: ");
        push_str(&mut report, regex);
        push_str(&mut report, "\n");
        push_str(&mut report, "Overall Risk Level: ");
        write_level(&mut report, result.overall_level);
        push_str(&mut report, "\n");
        push_str(&mut report, "Summary: ");
        push_str(&mut report, result.summary.as_str());
        push_str(&mut report, "\n\n");
        let ghost head = report@;
        if result.risks.len() == 0 {
            push_str(&mut report, "No ReDoS risks detected.\n");
        } else {
            push_str(&mut report, "Found ");
            push_decimal(&mut report, result.risks.len() as u64);
            push_str(&mut report, " potential risk(s):\n\n");
            let ghost intro = report@;
            let mut i: usize = 0;
            assert(intro + risk_entries(rs.take(0)) =~= intro);
            while i < result.risks.len()
                invariant
                    i <= result.risks.len(),
                    rs == risks_view(result.risks@),
                    report@ == intro + risk_entries(rs.take(i as int)),
                decreases result.risks.len() - i,
            {
                let ghost before = report@;
                write_risk_entry(&mut report, (i + 1) as u64, &result.risks[i]);
                assert(rs.take(i + 1).drop_last() =~= rs.take(i as int));
                assert(rs.take(i + 1).last() == rs[i as int]);
                assert(report@ =~= intro + risk_entries(rs.take(i + 1)));
                i += 1;
            }
            assert(rs.take(result.risks.len() as int) =~= rs);
        }
        assert(report@ =~= spec_report(rs, result.overall_level, result.summary@, regex@));
        report
    }
}

impl Default for ReDoSAnalyzer {
    fn default() -> (a: Self)
        ensures
            a == ReDoSAnalyzer,
    {
        Self::new()
    }
}

/// Analyzes an expression.
pub fn analyze_redo(expr: &Expr) -> (r: AnalysisResult)
    ensures
        risks_view(r.risks@) == spec_risks(expr@, "root"@),
        r.overall_level == max_level(spec_risks(expr@, "root"@)),
        r.summary@ == summary_text(r.overall_level),
{
    ReDoSAnalyzer::new().analyze(expr)
}


// ----- laws -----

/// Whether some capturing or non-capturing group in the expression (looking through
/// sequences, alternations, repetitions and groups) has content that holds both an
/// alternation and a quantifier.
pub open spec fn contains_ambiguous_group(e: SExpr) -> bool
    decreases e,
{
    match e {
        SExpr::Group { expr, kind } => ((kind is Capturing || kind is NonCapturing)
            && spec_contains_alternation(*expr) && spec_contains_quantifier(*expr))
            || contains_ambiguous_group(*expr),
        SExpr::Repetition { expr, .. } => contains_ambiguous_group(*expr),
        SExpr::Concat(items) => any_ambiguous_group(items),
        SExpr::Alternation(items) => any_ambiguous_group(items),
        _ => false,
    }
}

pub open spec fn any_ambiguous_group(items: Seq<SExpr>) -> bool
    decreases items,
{
    if items.len() == 0 {
        false
    } else {
        any_ambiguous_group(items.drop_last()) || contains_ambiguous_group(items.last())
    }
}

/// Whether some finding is of level `High`.
pub open spec fn has_high(rs: Seq<SRisk>) -> bool {
    exists|i: int| 0 <= i < rs.len() && (#[trigger] rs[i]).level == RiskLevel::High
}

proof fn lemma_has_high_concat(a: Seq<SRisk>, b: Seq<SRisk>)
    requires
        has_high(a) || has_high(b),
    ensures
        has_high(a + b),
{
    if has_high(a) {
        let i = choose|i: int| 0 <= i < a.len() && (#[trigger] a[i]).level == RiskLevel::High;
        assert((a + b)[i] == a[i]);
    } else {
        let i = choose|i: int| 0 <= i < b.len() && (#[trigger] b[i]).level == RiskLevel::High;
        assert((a + b)[a.len() + i] == b[i]);
    }
}

proof fn lemma_max_level_at_least(rs: Seq<SRisk>, i: int)
    requires
        0 <= i < rs.len(),
    ensures
        level_rank(max_level(rs)) >= level_rank(rs[i].level),
    decreases rs.len(),
{
    if i < rs.len() - 1 {
        lemma_max_level_at_least(rs.drop_last(), i);
        assert(rs.drop_last()[i] == rs[i]);
    }
}

proof fn lemma_ambiguous_group_high(e: SExpr, loc: Seq<char>)
    requires
        contains_ambiguous_group(e),
    ensures
        has_high(spec_risks(e, loc)),
    decreases e,
{
    match e {
        SExpr::Group { expr, kind } => {
            let own = group_risks(*expr, kind, loc);
            if (kind is Capturing || kind is NonCapturing) && spec_contains_alternation(*expr)
                && spec_contains_quantifier(*expr) {
                assert(own[0].level == RiskLevel::High);
                assert(has_high(own));
            } else {
                lemma_ambiguous_group_high(*expr, loc + ".()"@);
            }
            lemma_has_high_concat(own, spec_risks(*expr, loc + ".()"@));
        },
        SExpr::Repetition { expr, kind, greedy } => {
            lemma_ambiguous_group_high(*expr, loc + ".*"@);
            lemma_has_high_concat(nested_risks(*expr, kind, loc) + greedy_risks(*expr, greedy, loc),
                spec_risks(*expr, loc + ".*"@));
        },
        SExpr::Concat(items) => {
            lemma_ambiguous_items_high(items, loc, "."@);
            lemma_has_high_concat(adjacent_risks(items, items.len() - 1, loc), risks_of_items(items, loc, "."@));
        },
        SExpr::Alternation(items) => {
            lemma_ambiguous_items_high(items, loc, ".|"@);
            lemma_has_high_concat(alternation_risks(items, loc), risks_of_items(items, loc, ".|"@));
        },
        _ => {},
    }
}

proof fn lemma_ambiguous_items_high(items: Seq<SExpr>, loc: Seq<char>, sep: Seq<char>)
    requires
        any_ambiguous_group(items),
    ensures
        has_high(risks_of_items(items, loc, sep)),
    decreases items,
{
    let n = items.len();
    let sub = loc + sep + decimal((n - 1) as nat);
    if any_ambiguous_group(items.drop_last()) {
        lemma_ambiguous_items_high(items.drop_last(), loc, sep);
    } else {
        lemma_ambiguous_group_high(items.last(), sub);
    }
    lemma_has_high_concat(risks_of_items(items.drop_last(), loc, sep), spec_risks(items.last(), sub));
}

/// A capturing or non-capturing group whose content holds both an alternation and a
/// quantifier is reported first among its findings, as a `High` finding at the group's own
/// location.
pub proof fn law_ambiguous_group_reported_high(inner: SExpr, kind: GroupKind, loc: Seq<char>)
    requires
        kind is Capturing || kind is NonCapturing,
        spec_contains_alternation(inner),
        spec_contains_quantifier(inner),
    ensures
        ({
            let rs = spec_risks(SExpr::Group { expr: Box::new(inner), kind }, loc);
            &&& rs.len() > 0
            &&& rs[0].level == RiskLevel::High
            &&& rs[0].location == loc
            &&& rs[0].description == "Group contains both alternation and quantifiers - high backtracking potential"@
        }),
{
}

/// Any pattern with such a group anywhere inside it has a `High` finding, so its overall
/// level is at least `High`.
pub proof fn law_ambiguous_group_makes_pattern_high(e: SExpr, loc: Seq<char>)
    requires
        contains_ambiguous_group(e),
    ensures
        has_high(spec_risks(e, loc)),
        level_rank(max_level(spec_risks(e, loc))) >= level_rank(RiskLevel::High),
{
    lemma_ambiguous_group_high(e, loc);
    let rs = spec_risks(e, loc);
    let i = choose|i: int| 0 <= i < rs.len() && (#[trigger] rs[i]).level == RiskLevel::High;
    lemma_max_level_at_least(rs, i);
}


/// A group that is neither capturing nor non-capturing, or whose content lacks an
/// alternation or a quantifier, adds no finding of its own: its findings are those of
/// its content.
pub proof fn law_other_group_adds_nothing(inner: SExpr, kind: GroupKind, loc: Seq<char>)
    requires
        !(kind is Capturing || kind is NonCapturing) || !spec_contains_alternation(inner) || !spec_contains_quantifier(inner),
    ensures
        spec_risks(SExpr::Group { expr: Box::new(inner), kind }, loc) == spec_risks(inner, loc + ".()"@),
{
    assert(spec_risks(SExpr::Group { expr: Box::new(inner), kind }, loc) =~= spec_risks(inner, loc + ".()"@));
}

} // verus!
