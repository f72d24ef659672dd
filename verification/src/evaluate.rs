//! The requirement-tree and area evaluators: walking an area's named
//! requirements depth-first, evaluating each body expression against the
//! student's course list, applying overrides and fulfillments by path,
//! and computing aggregate progress.

use vstd::prelude::*;

use crate::course::Course;
use crate::course::CourseV;
use crate::expression::FilterExpression;
use crate::expression::HansonExpression;

verus! {

/// A manually supplied satisfying course.
pub type Fulfillment = Course;

/// The student's course list.
pub type CourseList = Vec<Course>;

/// The mathematical value of an attached evaluation result.
#[verifier::ext_equal]
pub struct RequirementEvaluationV {
    pub applied_fulfillment: Option<CourseV>,
    pub matched_courses: Seq<CourseV>,
    pub success: bool,
    pub overridden: bool,
}

/// The mathematical value of a requirement node, children included.
#[verifier::ext_equal]
pub struct RequirementV {
    pub name: Seq<char>,
    pub result: Option<HansonExpression>,
    pub message: Option<Seq<char>>,
    pub filter: Option<FilterExpression>,
    pub children_share_courses: Option<bool>,
    pub children: Seq<RequirementV>,
    pub evaluated: Option<RequirementEvaluationV>,
}

/// The result of evaluating one requirement's body expression.
#[derive(Debug)]
pub struct RequirementEvaluation {
    pub applied_fulfillment: Option<Fulfillment>,
    pub matched_courses: Vec<Course>,
    pub success: bool,
    pub overridden: bool,
}

impl View for RequirementEvaluation {
    type V = RequirementEvaluationV;

    open spec fn view(&self) -> RequirementEvaluationV {
        RequirementEvaluationV {
            applied_fulfillment: self.applied_fulfillment.deep_view(),
            matched_courses: self.matched_courses.deep_view(),
            success: self.success,
            overridden: self.overridden,
        }
    }
}

/// A named node in the area's tree: its body expression, an optional
/// message and filter, its children, and, after evaluation, the attached
/// result.
#[derive(Debug)]
pub struct Requirement {
    /// The name of the requirement, unique among its siblings.
    pub name: String,
    /// The expression that makes up the body of the requirement.
    pub result: Option<HansonExpression>,
    pub message: Option<String>,
    pub filter: Option<FilterExpression>,
    /// Declared but not yet consulted: reserved for a mode in which the
    /// children partition the course pool.
    pub children_share_courses: Option<bool>,
    /// The children of the requirement.
    pub children: Vec<Requirement>,
    /// The result of evaluating the `result` field.
    pub evaluated: Option<RequirementEvaluation>,
}

/// The mathematical value of a requirement node.
pub open spec fn req_view(r: Requirement) -> RequirementV
    decreases r,
{
    RequirementV {
        name: r.name@,
        result: r.result,
        message: r.message.deep_view(),
        filter: r.filter,
        children_share_courses: r.children_share_courses,
        children: reqs_view(r.children@),
        evaluated: match r.evaluated {
            Some(e) => Some(e@),
            None => None,
        },
    }
}

/// The mathematical values of a list of requirement nodes.
pub open spec fn reqs_view(rs: Seq<Requirement>) -> Seq<RequirementV>
    decreases rs,
{
    if rs.len() == 0 {
        Seq::empty()
    } else {
        reqs_view(rs.drop_last()).push(req_view(rs.last()))
    }
}

/// Element-wise reading of `reqs_view`.
pub proof fn lemma_reqs_view(rs: Seq<Requirement>)
    ensures
        reqs_view(rs).len() == rs.len(),
        forall|i: int| 0 <= i < rs.len() ==> #[trigger] reqs_view(rs)[i] == req_view(rs[i]),
    decreases rs.len(),
{
    if rs.len() > 0 {
        lemma_reqs_view(rs.drop_last());
    }
}

impl View for Requirement {
    type V = RequirementV;

    open spec fn view(&self) -> RequirementV {
        req_view(*self)
    }
}

impl DeepView for Requirement {
    type V = RequirementV;

    open spec fn deep_view(&self) -> RequirementV {
        self.view()
    }
}

/// The lookup table an association list denotes; a later entry for a
/// key supersedes an earlier one.
pub open spec fn map_of<V>(entries: Seq<(Seq<char>, V)>) -> Map<Seq<char>, V>
    decreases entries.len(),
{
    if entries.len() == 0 {
        Map::empty()
    } else {
        map_of(entries.drop_last()).insert(entries.last().0, entries.last().1)
    }
}

/// Manually forced success values, keyed by requirement path: an entry
/// here replaces the computed verdict of the node at that path.
#[derive(Debug)]
pub struct OverrideMap {
    entries: Vec<(String, bool)>,
}

impl View for OverrideMap {
    type V = Map<Seq<char>, bool>;

    closed spec fn view(&self) -> Map<Seq<char>, bool> {
        map_of(self.entries.deep_view())
    }
}

impl OverrideMap {
    /// An empty override map.
    pub fn new() -> (r: OverrideMap)
        ensures
            r@ == Map::<Seq<char>, bool>::empty(),
    {
        let entries: Vec<(String, bool)> = Vec::new();
        proof {
            assert(entries.deep_view() =~= Seq::<(Seq<char>, bool)>::empty());
        }
        OverrideMap { entries }
    }

    /// Binds a path to a forced success value, superseding any earlier
    /// binding.
    pub fn insert(&mut self, key: String, value: bool)
        ensures
            final(self)@ == old(self)@.insert(key@, value),
    {
        let ghost pre = self.entries.deep_view();
        self.entries.push((key, value));
        proof {
            assert(self.entries.deep_view() =~= pre.push((key@, value)));
            assert(self.entries.deep_view().drop_last() =~= pre);
        }
    }

    /// The value bound to a path, if any.
    pub fn get(&self, key: &String) -> (r: Option<bool>)
        ensures
            match r {
                Some(v) => self@.dom().contains(key@) && self@[key@] == v,
                None => !self@.dom().contains(key@),
            },
    {
        let ghost dv = self.entries.deep_view();
        let mut found: Option<bool> = None;
        let mut i: usize = 0;
        proof {
            assert(dv.take(0) =~= Seq::<(Seq<char>, bool)>::empty());
        }
        while i < self.entries.len()
            invariant
                i <= self.entries.len(),
                dv == self.entries.deep_view(),
                match found {
                    Some(v) => map_of(dv.take(i as int)).dom().contains(key@) && map_of(
                        dv.take(i as int),
                    )[key@] == v,
                    None => !map_of(dv.take(i as int)).dom().contains(key@),
                },
            decreases self.entries.len() - i,
        {
            if self.entries[i].0 == *key {
                found = Some(self.entries[i].1);
            }
            i = i + 1;
            proof {
                let t = dv.take(i as int);
                assert(t.len() == i as int);
                assert(t.drop_last() =~= dv.take((i - 1) as int));
                assert(t.last() == dv[i - 1]);
            }
        }
        proof {
            assert(dv.take(self.entries.len() as int) =~= dv);
        }
        found
    }
}

/// Manually supplied satisfying courses, keyed by requirement path: an
/// entry here names the course that fulfills the node at that path.
#[derive(Debug)]
pub struct FulfillmentMap {
    entries: Vec<(String, Course)>,
}

impl View for FulfillmentMap {
    type V = Map<Seq<char>, CourseV>;

    closed spec fn view(&self) -> Map<Seq<char>, CourseV> {
        map_of(self.entries.deep_view())
    }
}

impl FulfillmentMap {
    /// An empty fulfillment map.
    pub fn new() -> (r: FulfillmentMap)
        ensures
            r@ == Map::<Seq<char>, CourseV>::empty(),
    {
        let entries: Vec<(String, Course)> = Vec::new();
        proof {
            assert(entries.deep_view() =~= Seq::<(Seq<char>, CourseV)>::empty());
        }
        FulfillmentMap { entries }
    }

    /// Binds a path to a fulfilling course, superseding any earlier
    /// binding.
    pub fn insert(&mut self, key: String, value: Course)
        ensures
            final(self)@ == old(self)@.insert(key@, value@),
    {
        let ghost pre = self.entries.deep_view();
        self.entries.push((key, value));
        proof {
            assert(self.entries.deep_view() =~= pre.push((key@, value@)));
            assert(self.entries.deep_view().drop_last() =~= pre);
        }
    }

    /// The course bound to a path, if any, as a fresh copy.
    pub fn get(&self, key: &String) -> (r: Option<Course>)
        ensures
            match r {
                Some(c) => self@.dom().contains(key@) && self@[key@] == c@,
                None => !self@.dom().contains(key@),
            },
    {
        let ghost dv = self.entries.deep_view();
        let mut found: Option<usize> = None;
        let mut i: usize = 0;
        proof {
            assert(dv.take(0) =~= Seq::<(Seq<char>, CourseV)>::empty());
        }
        while i < self.entries.len()
            invariant
                i <= self.entries.len(),
                dv == self.entries.deep_view(),
                match found {
                    Some(j) => j < i && map_of(dv.take(i as int)).dom().contains(key@) && map_of(
                        dv.take(i as int),
                    )[key@] == dv[j as int].1,
                    None => !map_of(dv.take(i as int)).dom().contains(key@),
                },
            decreases self.entries.len() - i,
        {
            if self.entries[i].0 == *key {
                found = Some(i);
            }
            i = i + 1;
            proof {
                let t = dv.take(i as int);
                assert(t.len() == i as int);
                assert(t.drop_last() =~= dv.take((i - 1) as int));
                assert(t.last() == dv[i - 1]);
            }
        }
        proof {
            assert(dv.take(self.entries.len() as int) =~= dv);
        }
        match found {
            Some(j) => Some(self.entries[j].1.clone()),
            None => None,
        }
    }
}

/// The name a `str::to_lowercase` call returns for the given characters:
/// a function of the characters alone, the same in every run.
pub uninterp spec fn lower_of(s: Seq<char>) -> Seq<char>;

/// Relies on str::to_lowercase: the lowercase equivalent of the string,
/// depending on its characters alone.
#[verifier::external_body]
fn lowercase(s: &str) -> (r: String)
    ensures
        r@ == lower_of(s@),
{
    s.to_lowercase()
}

/// The reserved separator between path segments: an information
/// separator control character, which no requirement name contains.
pub open spec fn path_sep() -> char {
    '\x1c'
}

/// The ancestor names joined by the reserved separator.
pub open spec fn join_path(parts: Seq<Seq<char>>) -> Seq<char>
    decreases parts.len(),
{
    if parts.len() == 0 {
        Seq::empty()
    } else if parts.len() == 1 {
        parts[0]
    } else {
        join_path(parts.drop_last()) + seq![path_sep()] + parts.last()
    }
}

/// The override and fulfillment lookup key of a node: its ancestor
/// names joined by the reserved separator, lower-cased.
pub open spec fn path_key(parts: Seq<Seq<char>>) -> Seq<char> {
    lower_of(join_path(parts))
}

/// Whether a name is free of the reserved separator.
pub open spec fn sep_free_name(name: Seq<char>) -> bool {
    forall|k: int| 0 <= k < name.len() ==> name[k] != path_sep()
}

/// Whether every name of a chain is free of the reserved separator.
pub open spec fn sep_free(parts: Seq<Seq<char>>) -> bool {
    forall|i: int| 0 <= i < parts.len() ==> sep_free_name(#[trigger] parts[i])
}

proof fn lemma_sep_split(u: Seq<char>, x: Seq<char>, v: Seq<char>, y: Seq<char>)
    requires
        sep_free_name(x),
        sep_free_name(y),
        u + seq![path_sep()] + x == v + seq![path_sep()] + y,
    ensures
        u == v,
        x == y,
{
    let s = u + seq![path_sep()] + x;
    assert(s.len() == u.len() + 1 + x.len());
    assert(s.len() == v.len() + 1 + y.len());
    assert(s[u.len() as int] == path_sep());
    assert(s[v.len() as int] == path_sep());
    if u.len() < v.len() {
        let k = v.len() - u.len() - 1;
        assert(x[k as int] == s[u.len() + 1 + k]);
        assert(x[k as int] == path_sep());
        assert(false);
    }
    if v.len() < u.len() {
        let k = u.len() - v.len() - 1;
        assert(y[k as int] == s[v.len() + 1 + k]);
        assert(y[k as int] == path_sep());
        assert(false);
    }
    assert(u.len() == v.len());
    assert forall|j: int| 0 <= j < u.len() implies u[j] == v[j] by {
        assert(u[j] == s[j]);
        assert(v[j] == s[j]);
    }
    assert(u =~= v);
    assert forall|j: int| 0 <= j < x.len() implies x[j] == y[j] by {
        assert(x[j] == s[u.len() + 1 + j]);
        assert(y[j] == s[v.len() + 1 + j]);
    }
    assert(x =~= y);
}

/// Path uniqueness: the reserved separator occurs in no requirement
/// name, so joining a name chain is injective — two distinct chains of
/// separator-free names never produce the same path, and so two
/// distinct tree nodes never share a lookup key's joined text.
pub proof fn lemma_join_path_injective(a: Seq<Seq<char>>, b: Seq<Seq<char>>)
    requires
        a.len() > 0,
        b.len() > 0,
        sep_free(a),
        sep_free(b),
        join_path(a) == join_path(b),
    ensures
        a == b,
    decreases a.len(),
{
    if a.len() == 1 && b.len() == 1 {
        assert(a =~= b);
    } else if a.len() == 1 {
        let p = join_path(b.drop_last()).len();
        assert(join_path(b)[p as int] == path_sep());
        assert(sep_free_name(a[0]));
        assert(a[0][p as int] == path_sep());
    } else if b.len() == 1 {
        let p = join_path(a.drop_last()).len();
        assert(join_path(a)[p as int] == path_sep());
        assert(sep_free_name(b[0]));
        assert(b[0][p as int] == path_sep());
    } else {
        assert(sep_free_name(a[a.len() - 1]));
        assert(sep_free_name(b[b.len() - 1]));
        lemma_sep_split(
            join_path(a.drop_last()),
            a.last(),
            join_path(b.drop_last()),
            b.last(),
        );
        assert forall|i: int| 0 <= i < a.drop_last().len() implies sep_free_name(
            #[trigger] a.drop_last()[i],
        ) by {
            assert(a.drop_last()[i] == a[i]);
        }
        assert forall|i: int| 0 <= i < b.drop_last().len() implies sep_free_name(
            #[trigger] b.drop_last()[i],
        ) by {
            assert(b.drop_last()[i] == b[i]);
        }
        lemma_join_path_injective(a.drop_last(), b.drop_last());
        assert(a.len() == b.len());
        assert forall|i: int| 0 <= i < a.len() implies a[i] == b[i] by {
            if i < a.len() - 1 {
                assert(a.drop_last()[i] == b.drop_last()[i]);
            }
        }
        assert(a =~= b);
    }
}

/// Builds the lookup key for a requirement path.
pub fn make_requirement_path(path: &Vec<String>) -> (r: String)
    ensures
        r@ == path_key(path.deep_view()),
{
    let ghost dv = path.deep_view();
    let mut joined = String::new();
    let mut i: usize = 0;
    proof {
        assert(dv.take(0) =~= Seq::<Seq<char>>::empty());
    }
    while i < path.len()
        invariant
            i <= path.len(),
            dv == path.deep_view(),
            joined@ == join_path(dv.take(i as int)),
        decreases path.len() - i,
    {
        let ghost pre = joined@;
        if i > 0 {
            joined.append("\x1c");
            proof {
                reveal_strlit("\x1c");
                assert("\x1c"@ =~= seq![path_sep()]);
            }
        }
        joined.append(path[i].as_str());
        i = i + 1;
        proof {
            let t = dv.take(i as int);
            assert(t.len() == i as int);
            assert(t.drop_last() =~= dv.take((i - 1) as int));
            assert(t.last() == dv[i - 1]);
            if i == 1 {
                assert(joined@ =~= dv[0]);
            } else {
                assert(joined@ =~= join_path(t.drop_last()) + seq![path_sep()] + t.last());
            }
        }
    }
    proof {
        assert(dv.take(path.len() as int) =~= dv);
    }
    lowercase(joined.as_str())
}

/// The aggregate outcome attached to an evaluated area.
#[derive(Debug)]
pub struct AreaOfStudyEvaluation {
    pub progress: (usize, usize),
    pub error: Option<String>,
    pub success: bool,
}

/// The mathematical value of an area's aggregate outcome.
#[verifier::ext_equal]
pub struct AreaOfStudyEvaluationV {
    pub progress: (int, int),
    pub error: Option<Seq<char>>,
    pub success: bool,
}

impl View for AreaOfStudyEvaluation {
    type V = AreaOfStudyEvaluationV;

    open spec fn view(&self) -> AreaOfStudyEvaluationV {
        AreaOfStudyEvaluationV {
            progress: (self.progress.0 as int, self.progress.1 as int),
            error: self.error.deep_view(),
            success: self.success,
        }
    }
}

/// The top-level area definition: a major, minor or concentration, with
/// its root expression and its top-level requirements.
#[derive(Debug)]
pub struct AreaOfStudy {
    pub area_type: String,
    pub area_name: String,
    pub area_revision: String,
    pub area_url: Option<String>,
    pub result: HansonExpression,
    pub children: Vec<Requirement>,
    pub evaluated: Option<AreaOfStudyEvaluation>,
}

/// The mathematical value of an area definition.
#[verifier::ext_equal]
pub struct AreaOfStudyV {
    pub area_type: Seq<char>,
    pub area_name: Seq<char>,
    pub area_revision: Seq<char>,
    pub area_url: Option<Seq<char>>,
    pub result: HansonExpression,
    pub children: Seq<RequirementV>,
    pub evaluated: Option<AreaOfStudyEvaluationV>,
}

impl View for AreaOfStudy {
    type V = AreaOfStudyV;

    open spec fn view(&self) -> AreaOfStudyV {
        AreaOfStudyV {
            area_type: self.area_type@,
            area_name: self.area_name@,
            area_revision: self.area_revision@,
            area_url: self.area_url.deep_view(),
            result: self.result,
            children: reqs_view(self.children@),
            evaluated: match self.evaluated {
                Some(e) => Some(e@),
                None => None,
            },
        }
    }
}

/// What evaluating one requirement returns.  The node's own path is the
/// ancestor path extended by its name; the children are evaluated
/// first, against the unfiltered course list and under that path.  A
/// node without a body gets no verdict of its own.  Otherwise the
/// node's filter, if any, narrows the visible courses; a fulfillment
/// bound to the path is recorded; the body is evaluated against the
/// evaluated children and the visible courses; and an override bound to
/// the path replaces the computed success, the matched courses still
/// reporting the computation.
pub open spec fn req_eval(
    req: RequirementV,
    path: Seq<Seq<char>>,
    courses: Seq<CourseV>,
    overrides: Map<Seq<char>, bool>,
    fulfillments: Map<Seq<char>, CourseV>,
) -> RequirementV
    decreases req,
{
    let here = path.push(req.name);
    let children_results = reqs_eval(req.children, here, courses, overrides, fulfillments);
    match req.result {
        Some(body) => {
            let visible = match req.filter {
                Some(f) => crate::filter::filter_apply(f, courses),
                None => courses,
            };
            let key = path_key(here);
            let applied_fulfillment = if fulfillments.dom().contains(key) {
                Some(fulfillments[key])
            } else {
                None
            };
            let outcome = crate::compute::expr_eval(body, children_results, visible);
            let success = if overrides.dom().contains(key) {
                overrides[key]
            } else {
                outcome.success
            };
            RequirementV {
                name: req.name,
                result: req.result,
                message: req.message,
                filter: req.filter,
                children_share_courses: req.children_share_courses,
                children: children_results,
                evaluated: Some(
                    RequirementEvaluationV {
                        applied_fulfillment,
                        matched_courses: outcome.matched,
                        success,
                        overridden: overrides.dom().contains(key),
                    },
                ),
            }
        },
        None => RequirementV {
            name: req.name,
            result: req.result,
            message: req.message,
            filter: req.filter,
            children_share_courses: req.children_share_courses,
            children: children_results,
            evaluated: None,
        },
    }
}

/// What evaluating a list of requirements under one ancestor path
/// returns.
pub open spec fn reqs_eval(
    reqs: Seq<RequirementV>,
    path: Seq<Seq<char>>,
    courses: Seq<CourseV>,
    overrides: Map<Seq<char>, bool>,
    fulfillments: Map<Seq<char>, CourseV>,
) -> Seq<RequirementV>
    decreases reqs,
{
    if reqs.len() == 0 {
        Seq::empty()
    } else {
        seq![req_eval(reqs[0], path, courses, overrides, fulfillments)] + reqs_eval(
            reqs.drop_first(),
            path,
            courses,
            overrides,
            fulfillments,
        )
    }
}

/// Evaluates a list of requirement nodes in order, under one ancestor
/// path.
fn compute_requirements(
    reqs: Vec<Requirement>,
    path: &Vec<String>,
    courses: &Vec<Course>,
    overrides: &OverrideMap,
    fulfillments: &FulfillmentMap,
) -> (r: Vec<Requirement>)
    ensures
        r.deep_view() == reqs_eval(
            reqs.deep_view(),
            path.deep_view(),
            courses.deep_view(),
            overrides@,
            fulfillments@,
        ),
    decreases reqs@,
{
    let ghost dv = reqs.deep_view();
    let mut rest = reqs;
    if rest.len() == 0 {
        let out: Vec<Requirement> = Vec::new();
        proof {
            assert(out.deep_view() =~= Seq::<RequirementV>::empty());
        }
        return out;
    }
    let first = rest.remove(0);
    proof {
        assert(decreases_to!(reqs@ => reqs@[0]));
        assert(reqs@[0] == first);
        assert(rest@ == reqs@.drop_first());
    }
    let r0 = compute_requirement(first, path, courses, overrides, fulfillments);
    let ghost r0v = r0@;
    let mut out: Vec<Requirement> = Vec::new();
    out.push(r0);
    let mut tail = compute_requirements(rest, path, courses, overrides, fulfillments);
    let ghost tailv = tail.deep_view();
    out.append(&mut tail);
    proof {
        assert(out.deep_view() =~= seq![r0v] + tailv);
        assert(rest.deep_view() =~= dv.drop_first());
        assert(first@ == dv[0]);
    }
    out
}

/// Evaluates one requirement node: children first, depth-first, under
/// the node's own path; its result is pinned down by `req_eval`.
pub fn compute_requirement(
    requirement: Requirement,
    path: &Vec<String>,
    courses: &Vec<Course>,
    overrides: &OverrideMap,
    fulfillments: &FulfillmentMap,
) -> (r: Requirement)
    ensures
        r@ == req_eval(
            requirement@,
            path.deep_view(),
            courses.deep_view(),
            overrides@,
            fulfillments@,
        ),
    decreases requirement,
{
    let ghost reqv = req_view(requirement);
    let ghost pathv = path.deep_view();
    let Requirement { name, result, message, filter, children_share_courses, children, evaluated: _,
    } = requirement;

    let mut path_to_here = crate::course::clone_strings(path);
    path_to_here.push(name.clone());
    proof {
        assert(path_to_here.deep_view() =~= pathv.push(name@));
        lemma_reqs_view(children@);
        assert(children.deep_view() =~= reqv.children);
    }

    let children_results = compute_requirements(
        children,
        &path_to_here,
        courses,
        overrides,
        fulfillments,
    );
    proof {
        lemma_reqs_view(children_results@);
        assert(reqs_view(children_results@) =~= children_results.deep_view());
    }

    match result {
        Some(result_expr) => {
            let visible: Vec<Course> = match &filter {
                Some(f) => crate::filter::apply_filter(
                    f,
                    crate::course::clone_courses(courses),
                ),
                None => crate::course::clone_courses(courses),
            };
            let key = make_requirement_path(&path_to_here);
            let mut applied_fulfillment: Option<Fulfillment> = None;
            let computed: crate::compute::ExpressionResult;
            let adjusted: HansonExpression;
            match fulfillments.get(&key) {
                Some(value) => {
                    adjusted = apply_fulfillment_to_expression(result_expr, &value);
                    computed = crate::compute::compute_expression(
                        &adjusted,
                        &children_results,
                        &visible,
                        Some(&value),
                    );
                    applied_fulfillment = Some(value);
                },
                None => {
                    computed = crate::compute::compute_expression(
                        &result_expr,
                        &children_results,
                        &visible,
                        None,
                    );
                    adjusted = result_expr;
                },
            }
            let mut success = computed.success;
            let mut was_overridden = false;
            match overrides.get(&key) {
                Some(value) => {
                    was_overridden = true;
                    success = value;
                },
                None => {},
            }
            Requirement {
                name,
                result: Some(adjusted),
                message,
                filter,
                children_share_courses,
                children: children_results,
                evaluated: Some(
                    RequirementEvaluation {
                        applied_fulfillment,
                        matched_courses: computed.matched_courses,
                        success,
                        overridden: was_overridden,
                    },
                ),
            }
        },
        None => Requirement {
            name,
            result: None,
            message,
            filter,
            children_share_courses,
            children: children_results,
            evaluated: None,
        },
    }
}

/// Adjusts a requirement's body for a manually supplied fulfillment.
/// The exact substitution policy is a reserved extension point: the
/// body is returned unchanged, and the fulfillment itself is recorded
/// by the caller and handed to the evaluator alongside it.
pub fn apply_fulfillment_to_expression(
    result_expr: HansonExpression,
    _fulfillment_value: &Course,
) -> (r: HansonExpression)
    ensures
        r == result_expr,
{
    result_expr
}

/// How many of the given requirement results report success: a node
/// without an attached verdict counts as not passed.
pub open spec fn successes_of(results: Seq<RequirementV>) -> int
    decreases results,
{
    if results.len() == 0 {
        0
    } else {
        successes_of(results.drop_last()) + (if results.last().evaluated matches Some(e)
            && e.success {
            1int
        } else {
            0int
        })
    }
}

/// Counts the top-level requirements that passed, out of their total;
/// shallow, not recursive.
pub fn compute_progress(results: &Vec<Requirement>) -> (r: (usize, usize))
    ensures
        r.0 as int == successes_of(results.deep_view()),
        r.1 == results.len(),
{
    let ghost dv = results.deep_view();
    let mut passed: usize = 0;
    let mut i: usize = 0;
    proof {
        assert(dv.take(0) =~= Seq::<RequirementV>::empty());
    }
    while i < results.len()
        invariant
            i <= results.len(),
            passed <= i,
            dv == results.deep_view(),
            passed as int == successes_of(dv.take(i as int)),
        decreases results.len() - i,
    {
        let hit = match &results[i].evaluated {
            Some(detail) => detail.success,
            None => false,
        };
        if hit {
            passed = passed + 1;
        }
        i = i + 1;
        proof {
            let t = dv.take(i as int);
            assert(t.len() == i as int);
            assert(t.drop_last() =~= dv.take((i - 1) as int));
            assert(t.last() == dv[i - 1]);
        }
    }
    proof {
        assert(dv.take(results.len() as int) =~= dv);
    }
    (passed, results.len())
}

/// What evaluating a whole area returns: every top-level requirement is
/// evaluated under the root path (the area's name, its type), the
/// area's own root expression is evaluated against those results, and
/// progress counts the top-level passes.
pub open spec fn area_eval(
    area: AreaOfStudyV,
    courses: Seq<CourseV>,
    overrides: Map<Seq<char>, bool>,
    fulfillments: Map<Seq<char>, CourseV>,
) -> AreaOfStudyV {
    let root = seq![area.area_name, area.area_type];
    let results = reqs_eval(area.children, root, courses, overrides, fulfillments);
    let outcome = crate::compute::expr_eval(area.result, results, courses);
    AreaOfStudyV {
        area_type: area.area_type,
        area_name: area.area_name,
        area_revision: area.area_revision,
        area_url: area.area_url,
        result: area.result,
        children: results,
        evaluated: Some(
            AreaOfStudyEvaluationV {
                progress: (successes_of(results), results.len() as int),
                error: None,
                success: outcome.success,
            },
        ),
    }
}

/// Evaluates an area of study against a student's courses, overrides
/// and fulfillments; the result tree is pinned down by `area_eval`.
pub fn evaluate_area(
    courses: &Vec<Course>,
    overrides: &OverrideMap,
    fulfillments: &FulfillmentMap,
    area_of_study: AreaOfStudy,
) -> (r: AreaOfStudy)
    ensures
        r@ == area_eval(area_of_study@, courses.deep_view(), overrides@, fulfillments@),
{
    let ghost av = area_of_study@;
    let AreaOfStudy { area_type, area_name, area_revision, area_url, result, children, evaluated: _,
    } = area_of_study;
    let mut root: Vec<String> = Vec::new();
    root.push(area_name.clone());
    root.push(area_type.clone());
    proof {
        assert(root.deep_view() =~= seq![area_name@, area_type@]);
        lemma_reqs_view(children@);
        assert(children.deep_view() =~= av.children);
    }
    let results = compute_requirements(children, &root, courses, overrides, fulfillments);
    proof {
        lemma_reqs_view(results@);
        assert(reqs_view(results@) =~= results.deep_view());
    }
    let outcome = crate::compute::compute_expression(&result, &results, courses, None);
    let progress = compute_progress(&results);
    AreaOfStudy {
        area_type,
        area_name,
        area_revision,
        area_url,
        result,
        children: results,
        evaluated: Some(
            AreaOfStudyEvaluation { progress, error: None, success: outcome.success },
        ),
    }
}

/// Override precedence: where the override map binds a requirement's
/// path, the reported success is exactly the bound value, whatever the
/// computed matches say, and the node is marked overridden.
pub proof fn lemma_override_precedence(
    req: RequirementV,
    path: Seq<Seq<char>>,
    courses: Seq<CourseV>,
    overrides: Map<Seq<char>, bool>,
    fulfillments: Map<Seq<char>, CourseV>,
)
    requires
        req.result is Some,
        overrides.dom().contains(path_key(path.push(req.name))),
    ensures
        req_eval(req, path, courses, overrides, fulfillments).evaluated matches Some(e)
            && e.success == overrides[path_key(path.push(req.name))] && e.overridden,
{
}

/// The lookup keys of a requirement node and all its descendants.
pub open spec fn tree_keys(req: RequirementV, path: Seq<Seq<char>>) -> Set<Seq<char>>
    decreases req,
{
    trees_keys(req.children, path.push(req.name)).insert(path_key(path.push(req.name)))
}

/// The lookup keys of a list of requirement nodes and their
/// descendants, under one ancestor path.
pub open spec fn trees_keys(reqs: Seq<RequirementV>, path: Seq<Seq<char>>) -> Set<Seq<char>>
    decreases reqs,
{
    if reqs.len() == 0 {
        Set::empty()
    } else {
        tree_keys(reqs[0], path).union(trees_keys(reqs.drop_first(), path))
    }
}

/// Fulfillment idempotence: a fulfillment map that binds no path of the
/// tree changes nothing — evaluation returns exactly what it returns
/// with the empty fulfillment map.
pub proof fn lemma_fulfillment_irrelevant(
    req: RequirementV,
    path: Seq<Seq<char>>,
    courses: Seq<CourseV>,
    overrides: Map<Seq<char>, bool>,
    fulfillments: Map<Seq<char>, CourseV>,
)
    requires
        forall|k: Seq<char>| tree_keys(req, path).contains(k) ==> !fulfillments.dom().contains(k),
    ensures
        req_eval(req, path, courses, overrides, fulfillments) == req_eval(
            req,
            path,
            courses,
            overrides,
            Map::empty(),
        ),
    decreases req,
{
    let here = path.push(req.name);
    assert forall|k: Seq<char>| trees_keys(req.children, here).contains(k) implies !fulfillments
        .dom().contains(k) by {
        assert(tree_keys(req, path).contains(k));
    }
    lemma_fulfillments_irrelevant_list(req.children, here, courses, overrides, fulfillments);
    assert(tree_keys(req, path).contains(path_key(here)));
    assert(!Map::<Seq<char>, CourseV>::empty().dom().contains(path_key(here)));
    assert(req_eval(req, path, courses, overrides, fulfillments) =~= req_eval(
        req,
        path,
        courses,
        overrides,
        Map::empty(),
    ));
}

proof fn lemma_fulfillments_irrelevant_list(
    reqs: Seq<RequirementV>,
    path: Seq<Seq<char>>,
    courses: Seq<CourseV>,
    overrides: Map<Seq<char>, bool>,
    fulfillments: Map<Seq<char>, CourseV>,
)
    requires
        forall|k: Seq<char>| trees_keys(reqs, path).contains(k) ==> !fulfillments.dom().contains(
            k,
        ),
    ensures
        reqs_eval(reqs, path, courses, overrides, fulfillments) == reqs_eval(
            reqs,
            path,
            courses,
            overrides,
            Map::empty(),
        ),
    decreases reqs,
{
    if reqs.len() > 0 {
        assert forall|k: Seq<char>| tree_keys(reqs[0], path).contains(k) implies !fulfillments
            .dom().contains(k) by {
            assert(trees_keys(reqs, path).contains(k));
        }
        lemma_fulfillment_irrelevant(reqs[0], path, courses, overrides, fulfillments);
        assert forall|k: Seq<char>|
            trees_keys(reqs.drop_first(), path).contains(k) implies !fulfillments.dom().contains(
            k,
        ) by {
            assert(trees_keys(reqs, path).contains(k));
        }
        lemma_fulfillments_irrelevant_list(reqs.drop_first(), path, courses, overrides, fulfillments);
    }
}

/// Determinism: evaluation is a pure function of the area, the course
/// list, the override map and the fulfillment map — two results of the
/// same inputs are the same tree.
pub proof fn lemma_evaluation_deterministic(
    area: AreaOfStudyV,
    courses: Seq<CourseV>,
    overrides: Map<Seq<char>, bool>,
    fulfillments: Map<Seq<char>, CourseV>,
    r1: AreaOfStudyV,
    r2: AreaOfStudyV,
)
    requires
        r1 == area_eval(area, courses, overrides, fulfillments),
        r2 == area_eval(area, courses, overrides, fulfillments),
    ensures
        r1 == r2,
{
}

} // verus!
