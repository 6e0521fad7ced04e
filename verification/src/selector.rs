//! The label-selector mini-language: comma-separated predicates over a
//! label mapping, with equality, inequality, set membership and existence
//! forms, in the style of Kubernetes selectors.

use vstd::prelude::*;
use crate::labels::LabelMap;
use crate::text::{
    contains_sub, find_from, find_in_range, find_sub, is_match_at, to_chars, trim_bounds,
    trim_spec,
};
use crate::text::str_eq;

verus! {

broadcast use vstd::seq_lib::group_filter_ensures;

/// One selector predicate, as specifications see it.
pub enum ExprModel {
    Equals(Seq<char>, Seq<char>),
    NotEquals(Seq<char>, Seq<char>),
    In(Seq<char>, Seq<Seq<char>>),
    NotIn(Seq<char>, Seq<Seq<char>>),
    Exists(Seq<char>),
    NotExists(Seq<char>),
}

/// One selector predicate, as it is held at run time.
#[derive(Debug, Clone)]
pub enum LabelExpression {
    Equals(String, String),
    NotEquals(String, String),
    In(String, Vec<String>),
    NotIn(String, Vec<String>),
    Exists(String),
    NotExists(String),
}

impl View for LabelExpression {
    type V = ExprModel;

    open spec fn view(&self) -> ExprModel {
        match self {
            LabelExpression::Equals(k, v) => ExprModel::Equals(k@, v@),
            LabelExpression::NotEquals(k, v) => ExprModel::NotEquals(k@, v@),
            LabelExpression::In(k, vs) => ExprModel::In(k@, vs.deep_view()),
            LabelExpression::NotIn(k, vs) => ExprModel::NotIn(k@, vs.deep_view()),
            LabelExpression::Exists(k) => ExprModel::Exists(k@),
            LabelExpression::NotExists(k) => ExprModel::NotExists(k@),
        }
    }
}

impl DeepView for LabelExpression {
    type V = ExprModel;

    open spec fn deep_view(&self) -> ExprModel {
        self.view()
    }
}

/// Whether one predicate holds of a label mapping.
pub open spec fn expr_matches(e: ExprModel, labels: Map<Seq<char>, Seq<char>>) -> bool {
    match e {
        ExprModel::Equals(k, v) => labels.contains_key(k) && labels[k] == v,
        ExprModel::NotEquals(k, v) => !labels.contains_key(k) || labels[k] != v,
        ExprModel::In(k, vs) => labels.contains_key(k) && vs.contains(labels[k]),
        ExprModel::NotIn(k, vs) => !labels.contains_key(k) || !vs.contains(labels[k]),
        ExprModel::Exists(k) => labels.contains_key(k),
        ExprModel::NotExists(k) => !labels.contains_key(k),
    }
}

/// Whether every predicate of a selector holds of a label mapping; an
/// empty selector matches everything.
pub open spec fn selector_matches(exprs: Seq<ExprModel>, labels: Map<Seq<char>, Seq<char>>) -> bool {
    forall|i: int| 0 <= i < exprs.len() ==> expr_matches(exprs[i], labels)
}

/// The scanner splitting a selector on top-level commas: `i` is the next
/// character, `start` opens the current segment, `depth` counts open
/// parentheses, and `acc` holds the raw segments already cut. `None`
/// reports unbalanced parentheses.
pub open spec fn scan_segments(
    s: Seq<char>,
    i: int,
    start: int,
    depth: int,
    acc: Seq<Seq<char>>,
) -> Option<Seq<Seq<char>>>
    decreases s.len() + 1 - i,
    when 0 <= i <= s.len()
{
    if i >= s.len() {
        if depth != 0 {
            None
        } else {
            Some(acc.push(s.subrange(start, s.len() as int)))
        }
    } else if s[i] == '(' {
        scan_segments(s, i + 1, start, depth + 1, acc)
    } else if s[i] == ')' {
        if depth == 0 {
            None
        } else {
            scan_segments(s, i + 1, start, depth - 1, acc)
        }
    } else if s[i] == ',' && depth == 0 {
        scan_segments(s, i + 1, i + 1, 0, acc.push(s.subrange(start, i)))
    } else {
        scan_segments(s, i + 1, start, depth, acc)
    }
}

/// The raw top-level segments of a selector, or `None` on unbalanced
/// parentheses.
pub open spec fn raw_segments(s: Seq<char>) -> Option<Seq<Seq<char>>> {
    scan_segments(s, 0, 0, 0, Seq::empty())
}

/// The scanner splitting a value list on every comma.
pub open spec fn scan_values(s: Seq<char>, i: int, start: int, acc: Seq<Seq<char>>) -> Seq<
    Seq<char>,
>
    decreases s.len() + 1 - i,
    when 0 <= i <= s.len()
{
    if i >= s.len() {
        acc.push(s.subrange(start, s.len() as int))
    } else if s[i] == ',' {
        scan_values(s, i + 1, i + 1, acc.push(s.subrange(start, i)))
    } else {
        scan_values(s, i + 1, start, acc)
    }
}

/// The pieces of a value list, split on every comma.
pub open spec fn plain_split(s: Seq<char>) -> Seq<Seq<char>> {
    scan_values(s, 0, 0, Seq::empty())
}

/// Each piece trimmed, empty pieces dropped.
pub open spec fn cooked(parts: Seq<Seq<char>>) -> Seq<Seq<char>> {
    parts.map_values(|p: Seq<char>| trim_spec(p)).filter(|p: Seq<char>| p.len() > 0)
}

/// An equality or inequality predicate read from `e` at its first `op`:
/// both trimmed sides must be non-empty.
pub open spec fn parse_eq_expr(e: Seq<char>, op: Seq<char>, not_equals: bool) -> Option<ExprModel> {
    match find_sub(e, op) {
        None => None,
        Some(i) => {
            let key = trim_spec(e.subrange(0, i));
            let value = trim_spec(e.skip(i + op.len()));
            if key.len() == 0 || value.len() == 0 {
                None
            } else if not_equals {
                Some(ExprModel::NotEquals(key, value))
            } else {
                Some(ExprModel::Equals(key, value))
            }
        },
    }
}

/// A set-membership predicate read from `e` at its first `op`: the right
/// side must be a parenthesised, non-empty value list.
pub open spec fn parse_set_expr(e: Seq<char>, op: Seq<char>, not_in: bool) -> Option<ExprModel> {
    match find_sub(e, op) {
        None => None,
        Some(i) => {
            let key = trim_spec(e.subrange(0, i));
            let vs = trim_spec(e.skip(i + op.len()));
            if vs.len() < 2 || vs[0] != '(' || vs.last() != ')' {
                None
            } else {
                let values = cooked(plain_split(vs.subrange(1, vs.len() - 1)));
                if values.len() == 0 {
                    None
                } else if not_in {
                    Some(ExprModel::NotIn(key, values))
                } else {
                    Some(ExprModel::In(key, values))
                }
            }
        },
    }
}

/// One trimmed segment classified, trying the forms in priority order.
pub open spec fn parse_expr(e: Seq<char>) -> Option<ExprModel> {
    if contains_sub(e, " in "@) {
        parse_set_expr(e, " in "@, false)
    } else if contains_sub(e, " notin "@) {
        parse_set_expr(e, " notin "@, true)
    } else if contains_sub(e, "!="@) {
        parse_eq_expr(e, "!="@, true)
    } else if contains_sub(e, "="@) {
        parse_eq_expr(e, "="@, false)
    } else if e.len() > 0 && e[0] == '!' {
        Some(ExprModel::NotExists(e.skip(1)))
    } else {
        Some(ExprModel::Exists(e))
    }
}

/// Every segment classified; the whole list fails if any segment does.
pub open spec fn parse_exprs(segs: Seq<Seq<char>>) -> Option<Seq<ExprModel>>
    decreases segs.len(),
{
    if segs.len() == 0 {
        Some(Seq::empty())
    } else {
        match parse_exprs(segs.drop_last()) {
            None => None,
            Some(es) => match parse_expr(segs.last()) {
                None => None,
                Some(e) => Some(es.push(e)),
            },
        }
    }
}

/// What parsing a whole selector string yields: the predicates of its
/// trimmed, non-empty top-level segments, or `None` on any error.
pub open spec fn parse_selector(s: Seq<char>) -> Option<Seq<ExprModel>> {
    match raw_segments(s) {
        None => None,
        Some(raw) => parse_exprs(cooked(raw)),
    }
}

/// The raw segments a list of bounds cuts from `s`.
pub open spec fn bounds_views(s: Seq<char>, ps: Seq<(usize, usize)>) -> Seq<Seq<char>> {
    ps.map_values(|p: (usize, usize)| s.subrange(p.0 as int, p.1 as int))
}

proof fn lemma_cooked_push(parts: Seq<Seq<char>>, x: Seq<char>)
    ensures
        cooked(parts.push(x)) == cooked(parts) + (if trim_spec(x).len() > 0 {
            seq![trim_spec(x)]
        } else {
            Seq::<Seq<char>>::empty()
        }),
{
    let f = |p: Seq<char>| trim_spec(p);
    let pred = |p: Seq<char>| p.len() > 0;
    assert(parts.push(x).map_values(f) =~= parts.map_values(f) + seq![trim_spec(x)]);
    Seq::filter_distributes_over_add(parts.map_values(f), seq![trim_spec(x)], pred);
    reveal_with_fuel(Seq::filter, 2);
    assert(seq![trim_spec(x)].drop_last() =~= Seq::<Seq<char>>::empty());
    if trim_spec(x).len() > 0 {
        assert(seq![trim_spec(x)].filter(pred) =~= seq![trim_spec(x)]);
    } else {
        assert(seq![trim_spec(x)].filter(pred) =~= Seq::<Seq<char>>::empty());
    }
}

proof fn lemma_parse_exprs_push(segs: Seq<Seq<char>>, t: Seq<char>)
    ensures
        parse_exprs(segs.push(t)) == (match parse_exprs(segs) {
            None => None::<Seq<ExprModel>>,
            Some(es) => match parse_expr(t) {
                None => None,
                Some(e) => Some(es.push(e)),
            },
        }),
{
    assert(segs.push(t).drop_last() =~= segs);
    assert(segs.push(t).last() == t);
}

proof fn lemma_parse_exprs_prefix_fail(a: Seq<Seq<char>>, b: Seq<Seq<char>>)
    requires
        parse_exprs(a) is None,
    ensures
        parse_exprs(a + b) is None,
    decreases b.len(),
{
    if b.len() == 0 {
        assert(a + b =~= a);
    } else {
        lemma_parse_exprs_prefix_fail(a, b.drop_last());
        assert((a + b).drop_last() =~= a + b.drop_last());
        assert((a + b).len() > 0);
    }
}

/// A parsed label selector: an ordered list of predicates, every one of
/// which a label mapping must satisfy.
pub struct LabelSelector {
    expressions: Vec<LabelExpression>,
}

impl View for LabelSelector {
    type V = Seq<ExprModel>;

    closed spec fn view(&self) -> Seq<ExprModel> {
        self.expressions.deep_view()
    }
}

fn string_list_contains(vs: &Vec<String>, x: &String) -> (r: bool)
    ensures
        r == vs.deep_view().contains(x@),
{
    let n = vs.len();
    let mut i: usize = 0;
    while i < n
        invariant
            0 <= i <= n,
            n == vs@.len(),
            forall|j: int| 0 <= j < i ==> vs@[j]@ != x@,
        decreases n - i,
    {
        if str_eq(vs[i].as_str(), x.as_str()) {
            proof {
                assert(vs.deep_view()[i as int] == x@);
            }
            return true;
        }
        i = i + 1;
    }
    proof {
        if vs.deep_view().contains(x@) {
            let w = choose|w: int| 0 <= w < vs.deep_view().len() && vs.deep_view()[w] == x@;
            assert(vs@[w]@ == x@);
        }
    }
    false
}

impl LabelSelector {
    /// Evaluates the selector against a label mapping: true exactly when
    /// every predicate holds. Pure: the result is a function of the
    /// selector and the mapping alone.
    pub fn matches(&self, labels: &LabelMap) -> (r: bool)
        requires
            labels.wf(),
        ensures
            r == selector_matches(self@, labels@),
    {
        let n = self.expressions.len();
        let mut i: usize = 0;
        while i < n
            invariant
                0 <= i <= n,
                n == self.expressions@.len(),
                labels.wf(),
                forall|j: int| 0 <= j < i ==> expr_matches(self.expressions@[j]@, labels@),
            decreases n - i,
        {
            let ok: bool = match &self.expressions[i] {
                LabelExpression::Equals(k, v) => {
                    match labels.get(k.as_str()) {
                        Some(val) => str_eq(val.as_str(), v.as_str()),
                        None => false,
                    }
                },
                LabelExpression::NotEquals(k, v) => {
                    match labels.get(k.as_str()) {
                        Some(val) => !str_eq(val.as_str(), v.as_str()),
                        None => true,
                    }
                },
                LabelExpression::In(k, vs) => {
                    match labels.get(k.as_str()) {
                        Some(val) => string_list_contains(vs, val),
                        None => false,
                    }
                },
                LabelExpression::NotIn(k, vs) => {
                    match labels.get(k.as_str()) {
                        Some(val) => !string_list_contains(vs, val),
                        None => true,
                    }
                },
                LabelExpression::Exists(k) => labels.contains_key(k.as_str()),
                LabelExpression::NotExists(k) => !labels.contains_key(k.as_str()),
            };
            if !ok {
                proof {
                    assert(self@[i as int] == self.expressions@[i as int]@);
                    assert(!expr_matches(self@[i as int], labels@));
                }
                return false;
            }
            i = i + 1;
        }
        proof {
            assert forall|j: int| 0 <= j < self@.len() implies expr_matches(
                self@[j],
                labels@,
            ) by {
                assert(self@[j] == self.expressions@[j]@);
            }
        }
        true
    }

    /// Parses a selector string into its predicates. Returns `Err`
    /// exactly on the strings the grammar rejects: unbalanced
    /// parentheses, an empty side of `=` or `!=`, or a missing or empty
    /// parenthesised list after `in` / `notin`.
    pub fn parse(selector: &str) -> (r: Result<LabelSelector, String>)
        ensures
            r is Ok <==> parse_selector(selector@) is Some,
            r matches Ok(sel) ==> Some(sel@) == parse_selector(selector@),
    {
        let v = to_chars(selector);
        let n = v.len();
        let mut segs: Vec<(usize, usize)> = Vec::new();
        let mut depth: usize = 0;
        let mut start: usize = 0;
        let mut i: usize = 0;
        proof {
            assert(bounds_views(v@, segs@) =~= Seq::<Seq<char>>::empty());
        }
        while i < n
            invariant
                0 <= i <= n,
                start <= i,
                depth <= i,
                n == v@.len(),
                v@ == selector@,
                forall|j: int| 0 <= j < segs@.len() ==> #[trigger] segs@[j].0 <= segs@[j].1 <= n,
                raw_segments(v@) == scan_segments(
                    v@,
                    i as int,
                    start as int,
                    depth as int,
                    bounds_views(v@, segs@),
                ),
            decreases n - i,
        {
            let c = v[i];
            if c == '(' {
                depth = depth + 1;
            } else if c == ')' {
                if depth == 0 {
                    proof {
                        assert(raw_segments(v@) is None);
                    }
                    return Err("Unmatched closing parenthesis".to_owned());
                }
                depth = depth - 1;
            } else if c == ',' && depth == 0 {
                let ghost pre = bounds_views(v@, segs@);
                segs.push((start, i));
                proof {
                    assert(bounds_views(v@, segs@) =~= pre.push(
                        v@.subrange(start as int, i as int),
                    ));
                }
                start = i + 1;
            }
            i = i + 1;
        }
        if depth != 0 {
            proof {
                assert(raw_segments(v@) is None);
            }
            return Err("Unmatched opening parenthesis".to_owned());
        }
        let ghost pre = bounds_views(v@, segs@);
        segs.push((start, n));
        proof {
            assert(bounds_views(v@, segs@) =~= pre.push(v@.subrange(start as int, n as int)));
        }
        let ghost raw = bounds_views(v@, segs@);
        proof {
            assert(raw_segments(v@) == Some(raw));
        }

        let m = segs.len();
        let mut exprs: Vec<LabelExpression> = Vec::new();
        let mut k: usize = 0;
        while k < m
            invariant
                0 <= k <= m,
                m == segs@.len(),
                v@ == selector@,
                raw == bounds_views(v@, segs@),
                raw_segments(v@) == Some(raw),
                forall|j: int| 0 <= j < segs@.len() ==> #[trigger] segs@[j].0 <= segs@[j].1
                    <= v@.len(),
                parse_exprs(cooked(raw.take(k as int))) == Some(exprs.deep_view()),
            decreases m - k,
        {
            let (a0, b0) = segs[k];
            let (a, b) = trim_bounds(&v, a0, b0);
            let ghost rawk = raw[k as int];
            proof {
                assert(rawk == v@.subrange(a0 as int, b0 as int));
                assert(raw.take(k + 1) =~= raw.take(k as int).push(rawk));
                lemma_cooked_push(raw.take(k as int), rawk);
                assert(v@.subrange(a as int, b as int) == trim_spec(rawk));
            }
            if a == b {
                proof {
                    assert(trim_spec(rawk).len() == 0);
                    assert(cooked(raw.take(k + 1)) =~= cooked(raw.take(k as int)));
                }
            } else {
                proof {
                    assert(trim_spec(rawk).len() > 0);
                    assert(cooked(raw.take(k + 1)) =~= cooked(raw.take(k as int)).push(
                        trim_spec(rawk),
                    ));
                    lemma_parse_exprs_push(cooked(raw.take(k as int)), trim_spec(rawk));
                }
                match Self::parse_expression(&v, selector, a, b) {
                    Ok(le) => {
                        let ghost pre_exprs = exprs.deep_view();
                        exprs.push(le);
                        proof {
                            assert(exprs.deep_view() =~= pre_exprs.push(le@));
                        }
                    },
                    Err(msg) => {
                        proof {
                            assert(parse_exprs(cooked(raw.take(k + 1))) is None);
                            assert(raw =~= raw.take(k + 1) + raw.skip(k + 1));
                            lemma_cooked_append(raw.take(k + 1), raw.skip(k + 1));
                            lemma_parse_exprs_prefix_fail(
                                cooked(raw.take(k + 1)),
                                cooked(raw.skip(k + 1)),
                            );
                        }
                        return Err(msg);
                    },
                }
            }
            k = k + 1;
        }
        proof {
            assert(raw.take(m as int) =~= raw);
        }
        Ok(LabelSelector { expressions: exprs })
    }

    /// One trimmed, non-empty segment classified and read.
    fn parse_expression(v: &Vec<char>, s: &str, lo: usize, hi: usize) -> (r: Result<
        LabelExpression,
        String,
    >)
        requires
            v@ == s@,
            lo < hi <= v@.len(),
        ensures
            ({
                let e = v@.subrange(lo as int, hi as int);
                match r {
                    Ok(le) => parse_expr(e) == Some(le@),
                    Err(_) => parse_expr(e) is None,
                }
            }),
    {
        let ghost e = v@.subrange(lo as int, hi as int);
        proof {
            reveal_strlit(" in ");
            reveal_strlit(" notin ");
            reveal_strlit("!=");
            reveal_strlit("=");
        }
        let pat_in = to_chars(" in ");
        if let Some(p) = find_in_range(v, lo, hi, &pat_in) {
            proof {
                lemma_find_sound(e, " in "@, 0);
            }
            return Self::parse_set_expression(v, s, lo, hi, p, &pat_in, false);
        }
        let pat_notin = to_chars(" notin ");
        if let Some(p) = find_in_range(v, lo, hi, &pat_notin) {
            proof {
                lemma_find_sound(e, " notin "@, 0);
            }
            return Self::parse_set_expression(v, s, lo, hi, p, &pat_notin, true);
        }
        let pat_ne = to_chars("!=");
        if let Some(p) = find_in_range(v, lo, hi, &pat_ne) {
            proof {
                lemma_find_sound(e, "!="@, 0);
            }
            return Self::parse_eq_expression(v, s, lo, hi, p, &pat_ne, true);
        }
        let pat_eq = to_chars("=");
        if let Some(p) = find_in_range(v, lo, hi, &pat_eq) {
            proof {
                lemma_find_sound(e, "="@, 0);
            }
            return Self::parse_eq_expression(v, s, lo, hi, p, &pat_eq, false);
        }
        if v[lo] == '!' {
            let key = s.substring_char(lo + 1, hi).to_owned();
            proof {
                assert(e.skip(1) =~= v@.subrange(lo + 1, hi as int));
            }
            Ok(LabelExpression::NotExists(key))
        } else {
            let key = s.substring_char(lo, hi).to_owned();
            Ok(LabelExpression::Exists(key))
        }
    }

    /// An `=` or `!=` predicate read at the operator's first position.
    fn parse_eq_expression(
        v: &Vec<char>,
        s: &str,
        lo: usize,
        hi: usize,
        p: usize,
        pat: &Vec<char>,
        not_equals: bool,
    ) -> (r: Result<LabelExpression, String>)
        requires
            v@ == s@,
            lo <= hi <= v@.len(),
            lo <= p,
            find_sub(v@.subrange(lo as int, hi as int), pat@) == Some(p - lo),
            is_match_at(v@.subrange(lo as int, hi as int), pat@, p - lo),
        ensures
            ({
                let e = v@.subrange(lo as int, hi as int);
                match r {
                    Ok(le) => parse_eq_expr(e, pat@, not_equals) == Some(le@),
                    Err(_) => parse_eq_expr(e, pat@, not_equals) is None,
                }
            }),
    {
        let ghost e = v@.subrange(lo as int, hi as int);
        let oplen = pat.len();
        let (ka, kb) = trim_bounds(v, lo, p);
        let (va, vb) = trim_bounds(v, p + oplen, hi);
        proof {
            assert(e.subrange(0, p - lo) =~= v@.subrange(lo as int, p as int));
            assert(e.skip(p - lo + pat@.len()) =~= v@.subrange(p + oplen, hi as int));
        }
        if ka == kb || va == vb {
            let mut msg = "Invalid expression: ".to_owned();
            msg.append(s.substring_char(lo, hi));
            Err(msg)
        } else {
            let key = s.substring_char(ka, kb).to_owned();
            let value = s.substring_char(va, vb).to_owned();
            if not_equals {
                Ok(LabelExpression::NotEquals(key, value))
            } else {
                Ok(LabelExpression::Equals(key, value))
            }
        }
    }

    /// An `in` or `notin` predicate read at the operator's first position.
    fn parse_set_expression(
        v: &Vec<char>,
        s: &str,
        lo: usize,
        hi: usize,
        p: usize,
        pat: &Vec<char>,
        not_in: bool,
    ) -> (r: Result<LabelExpression, String>)
        requires
            v@ == s@,
            lo <= hi <= v@.len(),
            lo <= p,
            find_sub(v@.subrange(lo as int, hi as int), pat@) == Some(p - lo),
            is_match_at(v@.subrange(lo as int, hi as int), pat@, p - lo),
        ensures
            ({
                let e = v@.subrange(lo as int, hi as int);
                match r {
                    Ok(le) => parse_set_expr(e, pat@, not_in) == Some(le@),
                    Err(_) => parse_set_expr(e, pat@, not_in) is None,
                }
            }),
    {
        let ghost e = v@.subrange(lo as int, hi as int);
        let oplen = pat.len();
        let (ka, kb) = trim_bounds(v, lo, p);
        let (va, vb) = trim_bounds(v, p + oplen, hi);
        proof {
            assert(e.subrange(0, p - lo) =~= v@.subrange(lo as int, p as int));
            assert(e.skip(p - lo + pat@.len()) =~= v@.subrange(p + oplen, hi as int));
        }
        let ghost vs = trim_spec(e.skip(p - lo + pat@.len()));
        if va == vb || v[va] != '(' || v[vb - 1] != ')' {
            proof {
                if vs.len() >= 2 {
                    assert(vs[0] == v@[va as int]);
                    assert(vs.last() == v@[vb - 1]);
                }
            }
            let mut msg = "Values must be in parentheses: ".to_owned();
            msg.append(s.substring_char(lo, hi));
            return Err(msg);
        }
        proof {
            if vs.len() < 2 {
                assert(vs[0] == v@[va as int] && vs.last() == v@[vb - 1]);
                assert(va as int == vb - 1);
                assert(false);
            }
            assert(vs[0] == '(' && vs.last() == ')');
        }
        let ghost inner = vs.subrange(1, vs.len() - 1);
        proof {
            assert(inner =~= v@.subrange(va + 1, vb - 1));
        }
        let mut parts: Vec<(usize, usize)> = Vec::new();
        let ilo = va + 1;
        let ihi = vb - 1;
        let mut cstart: usize = ilo;
        let mut ci: usize = ilo;
        proof {
            assert(bounds_views(v@, parts@) =~= Seq::<Seq<char>>::empty());
        }
        while ci < ihi
            invariant
                ilo <= cstart <= ci <= ihi <= v@.len(),
                inner == v@.subrange(ilo as int, ihi as int),
                forall|j: int| 0 <= j < parts@.len() ==> #[trigger] parts@[j].0 <= parts@[j].1
                    <= v@.len(),
                plain_split(inner) == scan_values(
                    inner,
                    ci - ilo,
                    cstart - ilo,
                    bounds_views(v@, parts@),
                ),
            decreases ihi - ci,
        {
            if v[ci] == ',' {
                let ghost pre = bounds_views(v@, parts@);
                parts.push((cstart, ci));
                proof {
                    assert(inner[ci - ilo] == ',');
                    assert(bounds_views(v@, parts@) =~= pre.push(
                        v@.subrange(cstart as int, ci as int),
                    ));
                    assert(inner.subrange(cstart - ilo, ci - ilo) =~= v@.subrange(
                        cstart as int,
                        ci as int,
                    ));
                }
                cstart = ci + 1;
            } else {
                proof {
                    assert(inner[ci - ilo] != ',');
                }
            }
            ci = ci + 1;
        }
        let ghost pre = bounds_views(v@, parts@);
        parts.push((cstart, ihi));
        proof {
            assert(bounds_views(v@, parts@) =~= pre.push(
                v@.subrange(cstart as int, ihi as int),
            ));
            assert(inner.subrange(cstart - ilo, inner.len() as int) =~= v@.subrange(
                cstart as int,
                ihi as int,
            ));
            assert(plain_split(inner) == bounds_views(v@, parts@));
        }
        let ghost pieces = bounds_views(v@, parts@);

        let pn = parts.len();
        let mut values: Vec<String> = Vec::new();
        let mut t: usize = 0;
        while t < pn
            invariant
                0 <= t <= pn,
                pn == parts@.len(),
                v@ == s@,
                pieces == bounds_views(v@, parts@),
                forall|j: int| 0 <= j < parts@.len() ==> #[trigger] parts@[j].0 <= parts@[j].1
                    <= v@.len(),
                values.deep_view() == cooked(pieces.take(t as int)),
            decreases pn - t,
        {
            let (x0, y0) = parts[t];
            let (x, y) = trim_bounds(v, x0, y0);
            proof {
                assert(pieces[t as int] == v@.subrange(x0 as int, y0 as int));
                assert(pieces.take(t + 1) =~= pieces.take(t as int).push(pieces[t as int]));
                lemma_cooked_push(pieces.take(t as int), pieces[t as int]);
                assert(v@.subrange(x as int, y as int) == trim_spec(pieces[t as int]));
            }
            if x < y {
                let ghost pre_values = values.deep_view();
                values.push(s.substring_char(x, y).to_owned());
                proof {
                    assert(values.deep_view() =~= pre_values.push(trim_spec(pieces[t as int])));
                    assert(cooked(pieces.take(t + 1)) =~= cooked(pieces.take(t as int)).push(
                        trim_spec(pieces[t as int]),
                    ));
                    assert(values.deep_view() =~= cooked(pieces.take(t + 1)));
                }
            } else {
                proof {
                    assert(cooked(pieces.take(t + 1)) =~= cooked(pieces.take(t as int)));
                }
            }
            t = t + 1;
        }
        proof {
            assert(pieces.take(pn as int) =~= pieces);
        }
        if values.is_empty() {
            proof {
                assert(cooked(plain_split(inner)).len() == 0);
            }
            let mut msg = "Empty values list in expression: ".to_owned();
            msg.append(s.substring_char(lo, hi));
            return Err(msg);
        }
        let key = s.substring_char(ka, kb).to_owned();
        if not_in {
            Ok(LabelExpression::NotIn(key, values))
        } else {
            Ok(LabelExpression::In(key, values))
        }
    }
}

proof fn lemma_cooked_append(a: Seq<Seq<char>>, b: Seq<Seq<char>>)
    ensures
        cooked(a + b) == cooked(a) + cooked(b),
{
    let f = |p: Seq<char>| trim_spec(p);
    let pred = |p: Seq<char>| p.len() > 0;
    assert((a + b).map_values(f) =~= a.map_values(f) + b.map_values(f));
    Seq::filter_distributes_over_add(a.map_values(f), b.map_values(f), pred);
}

pub proof fn lemma_find_sound(s: Seq<char>, pat: Seq<char>, i: int)
    requires
        0 <= i,
    ensures
        match find_from(s, pat, i) {
            Some(k) => i <= k && is_match_at(s, pat, k),
            None => true,
        },
    decreases s.len() + 1 - i,
{
    if i + pat.len() <= s.len() && !is_match_at(s, pat, i) {
        lemma_find_sound(s, pat, i + 1);
    }
}

} // verus!
