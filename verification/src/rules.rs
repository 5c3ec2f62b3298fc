//! Ignore rules: one rule per non-blank, non-comment line of a rule source.
//!
//! A leading `!` marks a negation (re-include), a leading `/` anchors the
//! pattern to the traversal root, a trailing `/` restricts it to
//! directories; the remainder is split on `/` into glob segments.  A path is
//! ignored exactly when the last rule that matches it is not negated.
use vstd::prelude::*;
use crate::glob::classes_ok;
use crate::glob::classes_ok_at;
use crate::glob::find_byte;
use crate::glob::find_byte_at;
use crate::glob::lemma_find_byte_range;
use crate::glob::lemma_find_byte_skip;
use crate::glob::segs_match;
use crate::glob::segs_match_at;
use crate::glob::views_of;

verus! {

/// The mathematical model of one ignore rule.
#[verifier::ext_equal]
pub ghost struct RuleModel {
    pub segs: Seq<Seq<u8>>,
    pub negated: bool,
    pub anchored: bool,
    pub dir_only: bool,
}

/// One compiled ignore rule.
pub struct Rule {
    pub segs: Vec<Vec<u8>>,
    pub negated: bool,
    pub anchored: bool,
    pub dir_only: bool,
}

impl View for Rule {
    type V = RuleModel;

    open spec fn view(&self) -> RuleModel {
        RuleModel {
            segs: views_of(self.segs@),
            negated: self.negated,
            anchored: self.anchored,
            dir_only: self.dir_only,
        }
    }
}

/// Whether a rule matches a relative path of the given kind.  A
/// directory-only rule matches no file.  An anchored rule must match the
/// whole path from the root; an unanchored one may start at any depth, but
/// must still cover the rest of the path.
pub open spec fn rule_matches(r: RuleModel, path: Seq<Seq<u8>>, is_dir: bool) -> bool {
    &&& !(r.dir_only && !is_dir)
    &&& if r.anchored {
        segs_match(r.segs, path)
    } else {
        exists|k: int| 0 <= k <= path.len() && segs_match(r.segs, path.skip(k))
    }
}

/// Last-match-wins evaluation of an ordered rule list: the verdict is the
/// polarity of the last matching rule; with no match the path is kept.
pub open spec fn is_ignored_spec(rules: Seq<RuleModel>, path: Seq<Seq<u8>>, is_dir: bool) -> bool
    decreases rules.len(),
{
    if rules.len() == 0 {
        false
    } else if rule_matches(rules.last(), path, is_dir) {
        !rules.last().negated
    } else {
        is_ignored_spec(rules.drop_last(), path, is_dir)
    }
}

/// The models of a list of compiled rules.
pub open spec fn rules_view(rules: Seq<Rule>) -> Seq<RuleModel> {
    rules.map_values(|r: Rule| r@)
}

impl Rule {
    /// Whether this rule matches the path, given as its segments relative to
    /// the traversal root.
    pub fn matches(&self, path: &Vec<Vec<u8>>, is_dir: bool) -> (r: bool)
        ensures
            r == rule_matches(self@, views_of(path@), is_dir),
    {
        let ghost sv = views_of(self.segs@);
        let ghost pv = views_of(path@);
        proof {
            assert(pv.len() == path@.len());
            assert(sv.skip(0) =~= sv);
        }
        if self.dir_only && !is_dir {
            return false;
        }
        if self.anchored {
            proof {
                assert(pv.skip(0) =~= pv);
            }
            segs_match_at(&self.segs, 0, path, 0)
        } else {
            let mut k: usize = 0;
            loop
                invariant
                    k <= path@.len(),
                    pv.len() == path@.len(),
                    sv == views_of(self.segs@),
                    pv == views_of(path@),
                    sv.skip(0) == sv,
                    !(self.dir_only && !is_dir),
                    !self.anchored,
                    forall|j: int| 0 <= j < k ==> !segs_match(sv, #[trigger] pv.skip(j)),
                decreases path@.len() - k,
            {
                if segs_match_at(&self.segs, 0, path, k) {
                    proof {
                        assert(self@.segs == sv);
                        assert(0 <= k as int <= views_of(path@).len() && segs_match(
                            self@.segs,
                            views_of(path@).skip(k as int),
                        ));
                        assert(rule_matches(self@, views_of(path@), is_dir));
                    }
                    return true;
                }
                if k == path.len() {
                    proof {
                        assert(self@.segs == sv);
                        assert forall|j: int|
                            0 <= j <= views_of(path@).len() implies !segs_match(
                            self@.segs,
                            #[trigger] views_of(path@).skip(j),
                        ) by {
                            if j == k as int {
                                assert(!segs_match(sv, pv.skip(k as int)));
                            } else {
                                assert(!segs_match(sv, pv.skip(j)));
                            }
                        }
                        assert(!rule_matches(self@, views_of(path@), is_dir));
                    }
                    return false;
                }
                k = k + 1;
            }
        }
    }
}

/// The compiled rule collection together with the root it is relative to.
pub struct RuleSet {
    pub root: Vec<u8>,
    pub rules: Vec<Rule>,
}

impl RuleSet {
    /// The models of the rules, in order.
    pub open spec fn models(self) -> Seq<RuleModel> {
        rules_view(self.rules@)
    }

    /// Whether the relative path is ignored by this rule set.
    pub fn is_ignored(&self, path: &Vec<Vec<u8>>, is_dir: bool) -> (r: bool)
        ensures
            r == is_ignored_spec(self.models(), views_of(path@), is_dir),
    {
        let ghost all = self.models();
        let ghost pv = views_of(path@);
        let mut i: usize = self.rules.len();
        proof {
            assert(all.take(self.rules@.len() as int) =~= all);
        }
        loop
            invariant
                i <= self.rules@.len(),
                all == rules_view(self.rules@),
                pv == views_of(path@),
                is_ignored_spec(all, pv, is_dir) == is_ignored_spec(
                    all.take(i as int),
                    pv,
                    is_dir,
                ),
            decreases i,
        {
            if i == 0 {
                proof {
                    assert(all.take(0) =~= Seq::<RuleModel>::empty());
                }
                return false;
            }
            let idx = i - 1;
            proof {
                assert(all.take(i as int).last() == self.rules@[idx as int]@);
                assert(all.take(i as int).drop_last() =~= all.take(idx as int));
            }
            if self.rules[idx].matches(path, is_dir) {
                return !self.rules[idx].negated;
            }
            i = idx;
        }
    }
}

/// Last-match-wins: appending a rule that matches the path decides the
/// verdict by that rule's polarity alone, whatever the earlier rules said.
/// With the same two rules in the opposite order, the other one decides.
pub proof fn lemma_last_match_wins(
    rules: Seq<RuleModel>,
    r: RuleModel,
    path: Seq<Seq<u8>>,
    is_dir: bool,
)
    requires
        rule_matches(r, path, is_dir),
    ensures
        is_ignored_spec(rules.push(r), path, is_dir) == !r.negated,
{
    assert(rules.push(r).last() == r);
}

/// A rule that does not match the path leaves the verdict to the earlier
/// rules.
pub proof fn lemma_no_match_defers(
    rules: Seq<RuleModel>,
    r: RuleModel,
    path: Seq<Seq<u8>>,
    is_dir: bool,
)
    requires
        !rule_matches(r, path, is_dir),
    ensures
        is_ignored_spec(rules.push(r), path, is_dir) == is_ignored_spec(rules, path, is_dir),
{
    assert(rules.push(r).last() == r);
    assert(rules.push(r).drop_last() =~= rules);
}

/// An anchored rule matches exactly the paths its segments match whole,
/// from the root.
pub proof fn lemma_anchored_matches(r: RuleModel, path: Seq<Seq<u8>>, is_dir: bool)
    requires
        r.anchored,
    ensures
        rule_matches(r, path, is_dir) <==> (!(r.dir_only && !is_dir) && segs_match(r.segs, path)),
{
}

/// An unanchored rule matches exactly the paths whose remainder, from some
/// depth on, its segments match whole.
pub proof fn lemma_unanchored_matches(r: RuleModel, path: Seq<Seq<u8>>, is_dir: bool)
    requires
        !r.anchored,
    ensures
        rule_matches(r, path, is_dir) <==> (!(r.dir_only && !is_dir) && exists|k: int|
            0 <= k <= path.len() && segs_match(r.segs, path.skip(k))),
{
}

/// Dropping the anchor only widens a rule: whatever the anchored form of a
/// pattern matches, the unanchored form matches too.
pub proof fn lemma_anchor_weakening(a: RuleModel, u: RuleModel, path: Seq<Seq<u8>>, is_dir: bool)
    requires
        a.anchored,
        !u.anchored,
        a.segs == u.segs,
        a.dir_only == u.dir_only,
        rule_matches(a, path, is_dir),
    ensures
        rule_matches(u, path, is_dir),
{
    assert(path.skip(0) =~= path);
    assert(0 <= 0 <= path.len() && segs_match(u.segs, path.skip(0)));
}

/// The pieces of `s` between occurrences of `b` (so one more piece than
/// there are occurrences).
pub open spec fn split_on(s: Seq<u8>, b: u8) -> Seq<Seq<u8>>
    decreases s.len(),
{
    let j = find_byte(s, b, 0);
    if j < 0 {
        seq![s]
    } else {
        proof {
            lemma_find_byte_range(s, b, 0);
        }
        seq![s.take(j)] + split_on(s.skip(j + 1), b)
    }
}

/// Copies the bytes of `v` between `lo` and `hi`.
pub fn subvec(v: &Vec<u8>, lo: usize, hi: usize) -> (r: Vec<u8>)
    requires
        lo <= hi <= v@.len(),
    ensures
        r@ == v@.subrange(lo as int, hi as int),
{
    let mut r: Vec<u8> = Vec::new();
    let mut i = lo;
    proof {
        assert(r@ =~= v@.subrange(lo as int, lo as int));
    }
    while i < hi
        invariant
            lo <= i <= hi <= v@.len(),
            r@ == v@.subrange(lo as int, i as int),
        decreases hi - i,
    {
        r.push(v[i]);
        proof {
            assert(v@.subrange(lo as int, i + 1) =~= v@.subrange(lo as int, i as int).push(
                v@[i as int],
            ));
        }
        i = i + 1;
    }
    r
}

fn split_from(v: &Vec<u8>, b: u8, start: usize) -> (r: Vec<Vec<u8>>)
    requires
        start <= v@.len(),
    ensures
        views_of(r@) == split_on(v@.skip(start as int), b),
    decreases v@.len() - start,
{
    let ghost s = v@.skip(start as int);
    proof {
        lemma_find_byte_skip(v@, b, start as int, 0);
        lemma_find_byte_range(v@, b, start as int);
    }
    match find_byte_at(v, b, start) {
        None => {
            let piece = subvec(v, start, v.len());
            let mut r: Vec<Vec<u8>> = Vec::new();
            r.push(piece);
            proof {
                assert(s =~= v@.subrange(start as int, v@.len() as int));
                assert(views_of(r@) =~= seq![s]);
            }
            r
        },
        Some(j) => {
            let n = v.len();
            proof {
                assert(start as int <= j as int && (j as int) < v@.len());
                assert(j < n);
            }
            let piece = subvec(v, start, j);
            let mut rest = split_from(v, b, j + 1);
            let ghost restv = rest@;
            let mut r: Vec<Vec<u8>> = Vec::new();
            r.push(piece);
            r.append(&mut rest);
            proof {
                let jj = j - start as int;
                assert(find_byte(s, b, 0) == jj);
                assert(s.take(jj) =~= v@.subrange(start as int, j as int));
                assert(s.skip(jj + 1) =~= v@.skip(j + 1));
                assert(views_of(r@) =~= seq![s.take(jj)] + views_of(restv));
            }
            r
        },
    }
}

/// Splits a byte vector on occurrences of `b`.
pub fn split_bytes(v: &Vec<u8>, b: u8) -> (r: Vec<Vec<u8>>)
    ensures
        views_of(r@) == split_on(v@, b),
{
    proof {
        assert(v@.skip(0) =~= v@);
    }
    split_from(v, b, 0)
}

/// A line with a trailing carriage return loses it.
pub open spec fn trim_cr(l: Seq<u8>) -> Seq<u8> {
    if l.len() > 0 && l.last() == 13 {
        l.drop_last()
    } else {
        l
    }
}

/// The lines of a rule source: split on line feeds, each line stripped of a
/// trailing carriage return.
pub open spec fn lines_of(s: Seq<u8>) -> Seq<Seq<u8>> {
    split_on(s, 10).map_values(|l: Seq<u8>| trim_cr(l))
}

/// Splits the raw bytes of a rule source into lines.
pub fn split_lines(bytes: &Vec<u8>) -> (r: Vec<Vec<u8>>)
    ensures
        views_of(r@) == lines_of(bytes@),
{
    let mut parts = split_bytes(bytes, 10);
    let ghost orig = views_of(parts@);
    let mut out: Vec<Vec<u8>> = Vec::new();
    proof {
        assert(views_of(parts@) =~= orig.skip(0));
    }
    while parts.len() > 0
        invariant
            out@.len() + parts@.len() == orig.len(),
            orig == split_on(bytes@, 10),
            forall|j: int| 0 <= j < out@.len() ==> #[trigger] out@[j]@ == trim_cr(orig[j]),
            views_of(parts@) == orig.skip(out@.len() as int),
        decreases parts@.len(),
    {
        let ghost k = out@.len() as int;
        let ghost oldparts = parts@;
        let mut p = parts.remove(0);
        proof {
            assert(p@ == views_of(oldparts)[0]);
            assert(views_of(oldparts)[0] == orig.skip(k)[0]);
            assert(orig.skip(k)[0] == orig[k]);
            assert(views_of(parts@) =~= views_of(oldparts).skip(1));
            assert(views_of(oldparts).skip(1) =~= orig.skip(k + 1));
        }
        if p.len() > 0 && p[p.len() - 1] == 13 {
            p.pop();
            proof {
                assert(p@ =~= trim_cr(orig[k]));
            }
        } else {
            proof {
                assert(p@ == trim_cr(orig[k]));
            }
        }
        out.push(p);
    }
    proof {
        assert(out@.len() == orig.len());
        assert forall|j: int| 0 <= j < out@.len() implies views_of(out@)[j] == lines_of(bytes@)[j] by {
            assert(views_of(out@)[j] == out@[j]@);
            assert(lines_of(bytes@)[j] == trim_cr(split_on(bytes@, 10)[j]));
        }
        assert(views_of(out@) =~= lines_of(bytes@));
    }
    out
}

/// Why a rule source failed to compile.
#[derive(Clone, Copy, Debug, PartialEq, Eq, Structural)]
pub enum PatternErrorKind {
    /// An active line holds no pattern once its markers are stripped.
    EmptyPattern,
    /// A `[` class in a pattern has no closing `]`.
    UnclosedClass,
}

/// A malformed line in a rule source: its index and what is wrong with it.
#[derive(Clone, Copy, Debug, PartialEq, Eq, Structural)]
pub struct PatternError {
    pub line: usize,
    pub kind: PatternErrorKind,
}

/// Blank lines and comment lines (leading `#`) carry no rule.
pub open spec fn is_active_line(line: Seq<u8>) -> bool {
    line.len() > 0 && line[0] != 35
}

/// True when the line begins with the negation marker `!`.
pub open spec fn line_negated(line: Seq<u8>) -> bool {
    line.len() > 0 && line[0] == 33
}

pub open spec fn after_neg(line: Seq<u8>) -> Seq<u8> {
    if line_negated(line) {
        line.skip(1)
    } else {
        line
    }
}

/// True when the pattern ends with `/`, restricting it to directories.
pub open spec fn line_dir_only(line: Seq<u8>) -> bool {
    after_neg(line).len() > 0 && after_neg(line).last() == 47
}

pub open spec fn after_dir(line: Seq<u8>) -> Seq<u8> {
    if line_dir_only(line) {
        after_neg(line).drop_last()
    } else {
        after_neg(line)
    }
}

/// True when the pattern begins with `/`, anchoring it to the root.
pub open spec fn line_anchored(line: Seq<u8>) -> bool {
    after_dir(line).len() > 0 && after_dir(line)[0] == 47
}

/// The pattern text with all three markers stripped.
pub open spec fn line_body(line: Seq<u8>) -> Seq<u8> {
    if line_anchored(line) {
        after_dir(line).skip(1)
    } else {
        after_dir(line)
    }
}

/// The rule an active line compiles to.
pub open spec fn line_rule(line: Seq<u8>) -> RuleModel {
    RuleModel {
        segs: split_on(line_body(line), 47),
        negated: line_negated(line),
        anchored: line_anchored(line),
        dir_only: line_dir_only(line),
    }
}

/// A line parses when it is blank or a comment, or when a pattern is left
/// after the markers and every class in it is closed.
pub open spec fn line_valid(line: Seq<u8>) -> bool {
    is_active_line(line) ==> (line_body(line).len() > 0 && forall|i: int|
        0 <= i < line_rule(line).segs.len() ==> classes_ok(#[trigger] line_rule(line).segs[i]))
}

/// The error an invalid active line is reported with.
pub open spec fn line_error_kind(line: Seq<u8>) -> PatternErrorKind {
    if line_body(line).len() == 0 {
        PatternErrorKind::EmptyPattern
    } else {
        PatternErrorKind::UnclosedClass
    }
}

/// Parses one line of a rule source: no rule for blank and comment lines,
/// the compiled rule for a well-formed pattern, the error kind otherwise.
pub fn parse_line(line: &Vec<u8>) -> (r: Result<Option<Rule>, PatternErrorKind>)
    ensures
        match r {
            Result::Ok(opt) => match opt {
                Option::None => !is_active_line(line@),
                Option::Some(rule) => is_active_line(line@) && line_valid(line@) && rule@
                    == line_rule(line@),
            },
            Result::Err(k) => is_active_line(line@) && !line_valid(line@) && k == line_error_kind(
                line@,
            ),
        },
{
    let len = line.len();
    if len == 0 || line[0] == 35 {
        return Result::Ok(Option::None);
    }
    let neg = line[0] == 33;
    let s0: usize = if neg {
        1
    } else {
        0
    };
    proof {
        assert(after_neg(line@) =~= line@.subrange(s0 as int, len as int));
    }
    let dir = len > s0 && line[len - 1] == 47;
    let e1: usize = if dir {
        len - 1
    } else {
        len
    };
    proof {
        assert(after_dir(line@) =~= line@.subrange(s0 as int, e1 as int));
    }
    let anch = e1 > s0 && line[s0] == 47;
    let s1: usize = if anch {
        s0 + 1
    } else {
        s0
    };
    proof {
        assert(line_body(line@) =~= line@.subrange(s1 as int, e1 as int));
    }
    if s1 == e1 {
        return Result::Err(PatternErrorKind::EmptyPattern);
    }
    let body = subvec(line, s1, e1);
    let segs = split_bytes(&body, 47);
    let ghost segsv = views_of(segs@);
    proof {
        assert(segsv == line_rule(line@).segs);
    }
    let mut i: usize = 0;
    while i < segs.len()
        invariant
            i <= segs@.len(),
            segsv == views_of(segs@),
            segsv == line_rule(line@).segs,
            is_active_line(line@),
            line_body(line@).len() > 0,
            neg == line_negated(line@),
            anch == line_anchored(line@),
            dir == line_dir_only(line@),
            forall|j: int| 0 <= j < i ==> classes_ok(#[trigger] segsv[j]),
        decreases segs@.len() - i,
    {
        proof {
            assert(segs@[i as int]@.skip(0) =~= segs@[i as int]@);
            assert(segsv[i as int] == segs@[i as int]@);
            assert(segsv.len() == segs@.len());
        }
        if !classes_ok_at(&segs[i], 0) {
            proof {
                assert(0 <= i as int && (i as int) < line_rule(line@).segs.len());
                assert(!classes_ok(line_rule(line@).segs[i as int]));
                assert(!line_valid(line@)) by {
                    if line_valid(line@) {
                        assert(is_active_line(line@));
                        assert(forall|j: int|
                            0 <= j < line_rule(line@).segs.len() ==> classes_ok(
                                #[trigger] line_rule(line@).segs[j],
                            ));
                        assert(classes_ok(line_rule(line@).segs[i as int]));
                    }
                }
            }
            return Result::Err(PatternErrorKind::UnclosedClass);
        }
        i = i + 1;
    }
    Result::Ok(
        Option::Some(Rule { segs, negated: neg, anchored: anch, dir_only: dir }),
    )
}

/// The implicit first rule: the version-control metadata directory `.git`
/// is ignored at any depth, subject as always to later negation.
pub open spec fn git_rule() -> RuleModel {
    RuleModel {
        segs: seq![seq![46u8, 103u8, 105u8, 116u8]],
        negated: false,
        anchored: false,
        dir_only: true,
    }
}

/// The rules the active lines compile to, in source order.
pub open spec fn compiled_rules(lines: Seq<Seq<u8>>) -> Seq<RuleModel>
    decreases lines.len(),
{
    if lines.len() == 0 {
        seq![]
    } else {
        compiled_rules(lines.drop_last()) + (if is_active_line(lines.last()) {
            seq![line_rule(lines.last())]
        } else {
            seq![]
        })
    }
}

/// Every line of the source parses.
pub open spec fn all_lines_valid(lines: Seq<Seq<u8>>) -> bool {
    forall|i: int| 0 <= i < lines.len() ==> line_valid(#[trigger] lines[i])
}

/// Compiles a rule source into a rule set rooted at `root`: the implicit
/// metadata rule first, then one rule per active line, in order.  Fails
/// with the first malformed line.
pub fn compile(root: Vec<u8>, lines: &Vec<Vec<u8>>) -> (r: Result<RuleSet, PatternError>)
    ensures
        match r {
            Result::Ok(rs) => all_lines_valid(views_of(lines@)) && rs.models() == seq![git_rule()]
                + compiled_rules(views_of(lines@)) && rs.root == root,
            Result::Err(e) => {
                &&& e.line < lines@.len()
                &&& !line_valid(views_of(lines@)[e.line as int])
                &&& forall|j: int| 0 <= j < e.line ==> line_valid(#[trigger] views_of(lines@)[j])
                &&& e.kind == line_error_kind(views_of(lines@)[e.line as int])
            },
        },
{
    let ghost lv = views_of(lines@);
    let mut rules: Vec<Rule> = Vec::new();
    let mut gitname: Vec<u8> = Vec::new();
    gitname.push(46);
    gitname.push(103);
    gitname.push(105);
    gitname.push(116);
    let mut gitsegs: Vec<Vec<u8>> = Vec::new();
    gitsegs.push(gitname);
    rules.push(Rule { segs: gitsegs, negated: false, anchored: false, dir_only: true });
    proof {
        assert(rules_view(rules@)[0].segs =~~= git_rule().segs);
        assert(rules_view(rules@) =~~= seq![git_rule()] + compiled_rules(lv.take(0)));
    }
    let mut i: usize = 0;
    while i < lines.len()
        invariant
            i <= lines@.len(),
            lv == views_of(lines@),
            rules_view(rules@) == seq![git_rule()] + compiled_rules(lv.take(i as int)),
            forall|j: int| 0 <= j < i ==> line_valid(#[trigger] lv[j]),
        decreases lines@.len() - i,
    {
        let ghost prev = rules_view(rules@);
        proof {
            assert(lv[i as int] == lines@[i as int]@);
            assert(lv.take(i + 1).drop_last() =~= lv.take(i as int));
            assert(lv.take(i + 1).last() == lv[i as int]);
        }
        match parse_line(&lines[i]) {
            Result::Ok(opt) => {
                match opt {
                    Option::None => {
                        proof {
                            assert(compiled_rules(lv.take(i + 1)) =~~= compiled_rules(
                                lv.take(i as int),
                            ));
                        }
                    },
                    Option::Some(rule) => {
                        rules.push(rule);
                        proof {
                            assert(rules_view(rules@) =~~= prev.push(rule@));
                            assert(compiled_rules(lv.take(i + 1)) =~~= compiled_rules(
                                lv.take(i as int),
                            ) + seq![line_rule(lv[i as int])]);
                            assert(rules_view(rules@) =~~= seq![git_rule()] + compiled_rules(
                                lv.take(i + 1),
                            ));
                        }
                    },
                }
            },
            Result::Err(k) => {
                return Result::Err(PatternError { line: i, kind: k });
            },
        }
        i = i + 1;
    }
    proof {
        assert(lv.take(lines@.len() as int) =~= lv);
    }
    Result::Ok(RuleSet { root, rules })
}

} // verus!
