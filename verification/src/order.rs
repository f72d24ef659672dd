//! A total order over courses, used by the `distinct` policy: course
//! lists are sorted by every field in declaration order (departments
//! compared as a sequence of tags) and adjacent duplicates removed.

use vstd::prelude::*;
use vstd::relations::sorted_by;
use vstd::relations::total_ordering;
use vstd::string::StrSliceExecFns;

use crate::course::Course;
use crate::course::CourseV;

verus! {

broadcast use {vstd::seq_lib::group_to_multiset_ensures, vstd::seq_lib::to_multiset_insert};

/// Outcome of a three-way comparison.
#[derive(Clone, Copy, Debug, PartialEq, Eq, Structural)]
pub enum Rel {
    Less,
    Equal,
    Greater,
}

/// The comparison outcome seen from the other side.
pub open spec fn flip_rel(r: Rel) -> Rel {
    match r {
        Rel::Less => Rel::Greater,
        Rel::Equal => Rel::Equal,
        Rel::Greater => Rel::Less,
    }
}

/// Lexicographic comparison of two character sequences, decided from
/// position `i` on: a proper prefix sorts first, otherwise the first
/// differing character decides by code point.
pub open spec fn chars_cmp_from(a: Seq<char>, b: Seq<char>, i: int) -> Rel
    decreases a.len() - i,
{
    if i >= a.len() && i >= b.len() {
        Rel::Equal
    } else if i >= a.len() {
        Rel::Less
    } else if i >= b.len() {
        Rel::Greater
    } else if (a[i] as int) < (b[i] as int) {
        Rel::Less
    } else if (b[i] as int) < (a[i] as int) {
        Rel::Greater
    } else {
        chars_cmp_from(a, b, i + 1)
    }
}

/// Lexicographic comparison of two character sequences.
pub open spec fn chars_cmp(a: Seq<char>, b: Seq<char>) -> Rel {
    chars_cmp_from(a, b, 0)
}

/// Comparison of two optional character sequences: an absent value sorts
/// before every present one.
pub open spec fn opt_chars_cmp(a: Option<Seq<char>>, b: Option<Seq<char>>) -> Rel {
    match (a, b) {
        (Option::None, Option::None) => Rel::Equal,
        (Option::None, Option::Some(_)) => Rel::Less,
        (Option::Some(_), Option::None) => Rel::Greater,
        (Option::Some(x), Option::Some(y)) => chars_cmp(x, y),
    }
}

/// Comparison of two integers.
pub open spec fn int_cmp(a: int, b: int) -> Rel {
    if a < b {
        Rel::Less
    } else if b < a {
        Rel::Greater
    } else {
        Rel::Equal
    }
}

/// Lexicographic comparison of two department lists, decided from
/// position `i` on.
pub open spec fn depts_cmp_from(a: Seq<Seq<char>>, b: Seq<Seq<char>>, i: int) -> Rel
    decreases a.len() - i,
{
    if i >= a.len() && i >= b.len() {
        Rel::Equal
    } else if i >= a.len() {
        Rel::Less
    } else if i >= b.len() {
        Rel::Greater
    } else {
        match chars_cmp(a[i], b[i]) {
            Rel::Equal => depts_cmp_from(a, b, i + 1),
            r => r,
        }
    }
}

/// Lexicographic comparison of two department lists.
pub open spec fn depts_cmp(a: Seq<Seq<char>>, b: Seq<Seq<char>>) -> Rel {
    depts_cmp_from(a, b, 0)
}

/// The total order over courses: every field compared in declaration
/// order, the first difference deciding.
pub open spec fn course_cmp(a: CourseV, b: CourseV) -> Rel {
    let r = chars_cmp(a.clbid, b.clbid);
    if r != Rel::Equal {
        r
    } else {
        let r = int_cmp(a.credits, b.credits);
        if r != Rel::Equal {
            r
        } else {
            let r = chars_cmp(a.crsid, b.crsid);
            if r != Rel::Equal {
                r
            } else {
                let r = depts_cmp(a.department, b.department);
                if r != Rel::Equal {
                    r
                } else {
                    let r = opt_chars_cmp(a.groupid, b.groupid);
                    if r != Rel::Equal {
                        r
                    } else {
                        let r = opt_chars_cmp(a.grouptype, b.grouptype);
                        if r != Rel::Equal {
                            r
                        } else {
                            let r = opt_chars_cmp(a.section, b.section);
                            if r != Rel::Equal {
                                r
                            } else {
                                let r = int_cmp(a.level, b.level);
                                if r != Rel::Equal {
                                    r
                                } else {
                                    let r = int_cmp(a.number, b.number);
                                    if r != Rel::Equal {
                                        r
                                    } else {
                                        let r = int_cmp(a.semester, b.semester);
                                        if r != Rel::Equal {
                                            r
                                        } else {
                                            int_cmp(a.year, b.year)
                                        }
                                    }
                                }
                            }
                        }
                    }
                }
            }
        }
    }
}

/// `a` sorts no later than `b` in the course order.
pub open spec fn course_le(a: CourseV, b: CourseV) -> bool {
    course_cmp(a, b) != Rel::Greater
}

/// The course order as a relation value, for use with sorting.
pub open spec fn course_le_fn() -> spec_fn(CourseV, CourseV) -> bool {
    |a: CourseV, b: CourseV| course_le(a, b)
}

proof fn lemma_chars_cmp_from_equal(a: Seq<char>, b: Seq<char>, i: int)
    requires
        0 <= i <= a.len(),
        0 <= i <= b.len(),
    ensures
        (chars_cmp_from(a, b, i) == Rel::Equal) <==> (a.len() == b.len() && forall|k: int|
            #![trigger a[k]]
            i <= k < a.len() ==> a[k] == b[k]),
    decreases a.len() - i,
{
    if i < a.len() && i < b.len() && a[i] as int == b[i] as int {
        assert(a[i] == b[i]);
        lemma_chars_cmp_from_equal(a, b, i + 1);
    } else if i < a.len() && i < b.len() {
        assert(a[i] != b[i]);
    }
}

/// Two character sequences compare as equal exactly when they are equal.
proof fn lemma_chars_cmp_equal(a: Seq<char>, b: Seq<char>)
    ensures
        (chars_cmp(a, b) == Rel::Equal) <==> (a == b),
{
    lemma_chars_cmp_from_equal(a, b, 0);
    if chars_cmp(a, b) == Rel::Equal {
        assert(a =~= b);
    }
}

proof fn lemma_chars_cmp_from_flip(a: Seq<char>, b: Seq<char>, i: int)
    ensures
        chars_cmp_from(b, a, i) == flip_rel(chars_cmp_from(a, b, i)),
    decreases a.len() - i,
{
    if i < a.len() && i < b.len() && a[i] as int == b[i] as int {
        lemma_chars_cmp_from_flip(a, b, i + 1);
    }
}

/// Swapping the operands flips the comparison.
proof fn lemma_chars_cmp_flip(a: Seq<char>, b: Seq<char>)
    ensures
        chars_cmp(b, a) == flip_rel(chars_cmp(a, b)),
{
    lemma_chars_cmp_from_flip(a, b, 0);
}

proof fn lemma_chars_cmp_from_trans(a: Seq<char>, b: Seq<char>, c: Seq<char>, i: int)
    requires
        chars_cmp_from(a, b, i) == Rel::Less,
        chars_cmp_from(b, c, i) == Rel::Less,
    ensures
        chars_cmp_from(a, c, i) == Rel::Less,
    decreases a.len() - i,
{
    if i < a.len() && i < b.len() && i < c.len() && a[i] as int == b[i] as int && b[i] as int
        == c[i] as int {
        lemma_chars_cmp_from_trans(a, b, c, i + 1);
    }
}

/// The strict part of the character-sequence order is transitive.
proof fn lemma_chars_cmp_trans(a: Seq<char>, b: Seq<char>, c: Seq<char>)
    requires
        chars_cmp(a, b) == Rel::Less,
        chars_cmp(b, c) == Rel::Less,
    ensures
        chars_cmp(a, c) == Rel::Less,
{
    lemma_chars_cmp_from_trans(a, b, c, 0);
}

/// All order facts about one triple of character sequences.
proof fn lemma_chars_cmp_facts(a: Seq<char>, b: Seq<char>, c: Seq<char>)
    ensures
        (chars_cmp(a, b) == Rel::Equal) <==> (a == b),
        (chars_cmp(b, c) == Rel::Equal) <==> (b == c),
        (chars_cmp(a, c) == Rel::Equal) <==> (a == c),
        chars_cmp(b, a) == flip_rel(chars_cmp(a, b)),
        chars_cmp(c, b) == flip_rel(chars_cmp(b, c)),
        chars_cmp(c, a) == flip_rel(chars_cmp(a, c)),
        chars_cmp(a, b) == Rel::Less && chars_cmp(b, c) == Rel::Less ==> chars_cmp(a, c)
            == Rel::Less,
{
    lemma_chars_cmp_equal(a, b);
    lemma_chars_cmp_equal(b, c);
    lemma_chars_cmp_equal(a, c);
    lemma_chars_cmp_flip(a, b);
    lemma_chars_cmp_flip(b, c);
    lemma_chars_cmp_flip(a, c);
    if chars_cmp(a, b) == Rel::Less && chars_cmp(b, c) == Rel::Less {
        lemma_chars_cmp_trans(a, b, c);
    }
}

/// All order facts about one triple of optional character sequences.
proof fn lemma_opt_chars_cmp_facts(
    a: Option<Seq<char>>,
    b: Option<Seq<char>>,
    c: Option<Seq<char>>,
)
    ensures
        (opt_chars_cmp(a, b) == Rel::Equal) <==> (a == b),
        (opt_chars_cmp(b, c) == Rel::Equal) <==> (b == c),
        (opt_chars_cmp(a, c) == Rel::Equal) <==> (a == c),
        opt_chars_cmp(b, a) == flip_rel(opt_chars_cmp(a, b)),
        opt_chars_cmp(c, b) == flip_rel(opt_chars_cmp(b, c)),
        opt_chars_cmp(c, a) == flip_rel(opt_chars_cmp(a, c)),
        opt_chars_cmp(a, b) == Rel::Less && opt_chars_cmp(b, c) == Rel::Less ==> opt_chars_cmp(
            a,
            c,
        ) == Rel::Less,
{
    match (a, b, c) {
        (Option::Some(x), Option::Some(y), Option::Some(z)) => {
            lemma_chars_cmp_facts(x, y, z);
        },
        _ => {
            if a is Some && b is Some {
                lemma_chars_cmp_facts(a->Some_0, b->Some_0, b->Some_0);
            }
            if b is Some && c is Some {
                lemma_chars_cmp_facts(b->Some_0, c->Some_0, c->Some_0);
            }
            if a is Some && c is Some {
                lemma_chars_cmp_facts(a->Some_0, c->Some_0, c->Some_0);
            }
        },
    }
}

proof fn lemma_depts_cmp_from_equal(a: Seq<Seq<char>>, b: Seq<Seq<char>>, i: int)
    requires
        0 <= i <= a.len(),
        0 <= i <= b.len(),
    ensures
        (depts_cmp_from(a, b, i) == Rel::Equal) <==> (a.len() == b.len() && forall|k: int|
            i <= k < a.len() ==> a[k] == b[k]),
    decreases a.len() - i,
{
    if i < a.len() && i < b.len() {
        lemma_chars_cmp_equal(a[i], b[i]);
        if chars_cmp(a[i], b[i]) == Rel::Equal {
            lemma_depts_cmp_from_equal(a, b, i + 1);
        }
    }
}

proof fn lemma_depts_cmp_from_flip(a: Seq<Seq<char>>, b: Seq<Seq<char>>, i: int)
    ensures
        depts_cmp_from(b, a, i) == flip_rel(depts_cmp_from(a, b, i)),
    decreases a.len() - i,
{
    if i < a.len() && i < b.len() {
        lemma_chars_cmp_flip(a[i], b[i]);
        lemma_chars_cmp_equal(a[i], b[i]);
        if chars_cmp(a[i], b[i]) == Rel::Equal {
            lemma_depts_cmp_from_flip(a, b, i + 1);
        }
    }
}

proof fn lemma_depts_cmp_from_trans(a: Seq<Seq<char>>, b: Seq<Seq<char>>, c: Seq<Seq<char>>, i: int)
    requires
        depts_cmp_from(a, b, i) == Rel::Less,
        depts_cmp_from(b, c, i) == Rel::Less,
    ensures
        depts_cmp_from(a, c, i) == Rel::Less,
    decreases a.len() - i,
{
    if i < a.len() && i < b.len() && i < c.len() {
        lemma_chars_cmp_facts(a[i], b[i], c[i]);
        if chars_cmp(a[i], b[i]) == Rel::Equal && chars_cmp(b[i], c[i]) == Rel::Equal {
            lemma_depts_cmp_from_trans(a, b, c, i + 1);
        }
    }
}

/// All order facts about one triple of department lists.
proof fn lemma_depts_cmp_facts(a: Seq<Seq<char>>, b: Seq<Seq<char>>, c: Seq<Seq<char>>)
    ensures
        (depts_cmp(a, b) == Rel::Equal) <==> (a == b),
        (depts_cmp(b, c) == Rel::Equal) <==> (b == c),
        (depts_cmp(a, c) == Rel::Equal) <==> (a == c),
        depts_cmp(b, a) == flip_rel(depts_cmp(a, b)),
        depts_cmp(c, b) == flip_rel(depts_cmp(b, c)),
        depts_cmp(c, a) == flip_rel(depts_cmp(a, c)),
        depts_cmp(a, b) == Rel::Less && depts_cmp(b, c) == Rel::Less ==> depts_cmp(a, c)
            == Rel::Less,
{
    lemma_depts_cmp_from_equal(a, b, 0);
    lemma_depts_cmp_from_equal(b, c, 0);
    lemma_depts_cmp_from_equal(a, c, 0);
    if depts_cmp(a, b) == Rel::Equal {
        assert(a =~= b);
    }
    if depts_cmp(b, c) == Rel::Equal {
        assert(b =~= c);
    }
    if depts_cmp(a, c) == Rel::Equal {
        assert(a =~= c);
    }
    lemma_depts_cmp_from_flip(a, b, 0);
    lemma_depts_cmp_from_flip(b, c, 0);
    lemma_depts_cmp_from_flip(a, c, 0);
    if depts_cmp(a, b) == Rel::Less && depts_cmp(b, c) == Rel::Less {
        lemma_depts_cmp_from_trans(a, b, c, 0);
    }
}

/// All order facts about one triple of courses: the comparison is equality
/// exactly on equal courses, flips with its operands, and its strict part
/// is transitive.
pub proof fn lemma_course_cmp_facts(a: CourseV, b: CourseV, c: CourseV)
    ensures
        (course_cmp(a, b) == Rel::Equal) <==> (a == b),
        (course_cmp(b, c) == Rel::Equal) <==> (b == c),
        (course_cmp(a, c) == Rel::Equal) <==> (a == c),
        course_cmp(b, a) == flip_rel(course_cmp(a, b)),
        course_cmp(c, b) == flip_rel(course_cmp(b, c)),
        course_cmp(c, a) == flip_rel(course_cmp(a, c)),
        course_cmp(a, b) == Rel::Less && course_cmp(b, c) == Rel::Less ==> course_cmp(a, c)
            == Rel::Less,
{
    lemma_chars_cmp_facts(a.clbid, b.clbid, c.clbid);
    lemma_chars_cmp_facts(a.crsid, b.crsid, c.crsid);
    lemma_depts_cmp_facts(a.department, b.department, c.department);
    lemma_opt_chars_cmp_facts(a.groupid, b.groupid, c.groupid);
    lemma_opt_chars_cmp_facts(a.grouptype, b.grouptype, c.grouptype);
    lemma_opt_chars_cmp_facts(a.section, b.section, c.section);
    assert((course_cmp(a, b) == Rel::Equal) ==> (a =~= b));
    assert((course_cmp(b, c) == Rel::Equal) ==> (b =~= c));
    assert((course_cmp(a, c) == Rel::Equal) ==> (a =~= c));
}

/// The course order is a total ordering.
pub proof fn lemma_course_le_total_ordering()
    ensures
        total_ordering(course_le_fn()),
{
    let leq = course_le_fn();
    assert forall|x: CourseV| #[trigger] leq(x, x) by {
        lemma_course_cmp_facts(x, x, x);
    }
    assert forall|x: CourseV, y: CourseV| #[trigger] leq(x, y) && #[trigger] leq(y, x) implies x
        == y by {
        lemma_course_cmp_facts(x, y, x);
    }
    assert forall|x: CourseV, y: CourseV, z: CourseV|
        #[trigger] leq(x, y) && #[trigger] leq(y, z) implies leq(x, z) by {
        lemma_course_cmp_facts(x, y, z);
    }
    assert forall|x: CourseV, y: CourseV| #[trigger] leq(x, y) || #[trigger] leq(y, x) by {
        lemma_course_cmp_facts(x, y, x);
    }
}

/// Three-way comparison of two strings, character by character.
fn string_compare(a: &String, b: &String) -> (r: Rel)
    ensures
        r == chars_cmp(a@, b@),
{
    let alen = a.as_str().unicode_len();
    let blen = b.as_str().unicode_len();
    let mut i: usize = 0;
    loop
        invariant
            i <= alen && i <= blen,
            alen == a@.len() && blen == b@.len(),
            chars_cmp(a@, b@) == chars_cmp_from(a@, b@, i as int),
        decreases alen + blen - 2 * i,
    {
        if i >= alen && i >= blen {
            return Rel::Equal;
        }
        if i >= alen {
            return Rel::Less;
        }
        if i >= blen {
            return Rel::Greater;
        }
        let ca = a.as_str().get_char(i);
        let cb = b.as_str().get_char(i);
        if ca < cb {
            return Rel::Less;
        }
        if cb < ca {
            return Rel::Greater;
        }
        i = i + 1;
    }
}

/// Three-way comparison of two optional strings.
fn opt_string_compare(a: &Option<String>, b: &Option<String>) -> (r: Rel)
    ensures
        r == opt_chars_cmp(a.deep_view(), b.deep_view()),
{
    match (a, b) {
        (None, None) => Rel::Equal,
        (None, Some(_)) => Rel::Less,
        (Some(_), None) => Rel::Greater,
        (Some(x), Some(y)) => string_compare(x, y),
    }
}

/// Three-way comparison of two department lists, tag by tag.
fn depts_compare(a: &Vec<String>, b: &Vec<String>) -> (r: Rel)
    ensures
        r == depts_cmp(a.deep_view(), b.deep_view()),
{
    let mut i: usize = 0;
    loop
        invariant
            i <= a.len() && i <= b.len(),
            depts_cmp(a.deep_view(), b.deep_view()) == depts_cmp_from(
                a.deep_view(),
                b.deep_view(),
                i as int,
            ),
        decreases a.len() + b.len() - 2 * i,
    {
        if i >= a.len() && i >= b.len() {
            return Rel::Equal;
        }
        if i >= a.len() {
            return Rel::Less;
        }
        if i >= b.len() {
            return Rel::Greater;
        }
        let r = string_compare(&a[i], &b[i]);
        if !(r == Rel::Equal) {
            return r;
        }
        i = i + 1;
    }
}

/// Three-way comparison of two 32-bit signed integers.
fn i32_compare(a: i32, b: i32) -> (r: Rel)
    ensures
        r == int_cmp(a as int, b as int),
{
    if a < b {
        Rel::Less
    } else if b < a {
        Rel::Greater
    } else {
        Rel::Equal
    }
}

/// Three-way comparison of two courses in the course order.
pub fn course_compare(a: &Course, b: &Course) -> (r: Rel)
    ensures
        r == course_cmp(a@, b@),
{
    let r = string_compare(&a.clbid, &b.clbid);
    if !(r == Rel::Equal) {
        return r;
    }
    let r = if a.credits < b.credits {
        Rel::Less
    } else if b.credits < a.credits {
        Rel::Greater
    } else {
        Rel::Equal
    };
    if !(r == Rel::Equal) {
        return r;
    }
    let r = string_compare(&a.crsid, &b.crsid);
    if !(r == Rel::Equal) {
        return r;
    }
    let r = depts_compare(&a.department, &b.department);
    if !(r == Rel::Equal) {
        return r;
    }
    let r = opt_string_compare(&a.groupid, &b.groupid);
    if !(r == Rel::Equal) {
        return r;
    }
    let r = opt_string_compare(&a.grouptype, &b.grouptype);
    if !(r == Rel::Equal) {
        return r;
    }
    let r = opt_string_compare(&a.section, &b.section);
    if !(r == Rel::Equal) {
        return r;
    }
    let r = i32_compare(a.level, b.level);
    if !(r == Rel::Equal) {
        return r;
    }
    let r = i32_compare(a.number, b.number);
    if !(r == Rel::Equal) {
        return r;
    }
    let r = i32_compare(a.semester, b.semester);
    if !(r == Rel::Equal) {
        return r;
    }
    i32_compare(a.year, b.year)
}

/// Sorts a course list by the course order; the result is the sorted
/// permutation of the input.
pub fn sort_courses(courses: &Vec<Course>) -> (r: Vec<Course>)
    ensures
        r.deep_view() == courses.deep_view().sort_by(course_le_fn()),
{
    let ghost leq = course_le_fn();
    let mut out: Vec<Course> = Vec::new();
    let mut i: usize = 0;
    while i < courses.len()
        invariant
            i <= courses.len(),
            leq == course_le_fn(),
            sorted_by(out.deep_view(), leq),
            out.deep_view().to_multiset() == courses.deep_view().take(i as int).to_multiset(),
        decreases courses.len() - i,
    {
        let c = courses[i].clone();
        let ghost pre = out.deep_view();
        let mut j: usize = 0;
        while j < out.len() && !(course_compare(&out[j], &c) == Rel::Greater)
            invariant
                j <= out.len(),
                out.deep_view() == pre,
                forall|k: int| 0 <= k < j ==> course_cmp(pre[k], c@) != Rel::Greater,
            decreases out.len() - j,
        {
            j = j + 1;
        }
        proof {
            assert(j == pre.len() || course_cmp(pre[j as int], c@) == Rel::Greater);
        }
        out.insert(j, c);
        proof {
            let s = out.deep_view();
            assert(s =~= pre.insert(j as int, c@));
            pre.insert_ensures(j as int, c@);
            assert forall|p: int, q: int| 0 <= p < q < s.len() implies #[trigger] leq(
                s[p],
                s[q],
            ) by {
                if q < j {
                    assert(leq(pre[p], pre[q]));
                } else if p < j && q == j {
                    lemma_course_cmp_facts(pre[p], c@, c@);
                } else if p < j && q > j {
                    assert(leq(pre[p], pre[q - 1]));
                } else if p == j {
                    lemma_course_cmp_facts(c@, pre[j as int], pre[q - 1]);
                    assert(leq(pre[j as int], pre[q - 1]));
                } else {
                    assert(leq(pre[p - 1], pre[q - 1]));
                }
            }
            assert(courses.deep_view().take((i + 1) as int) =~= courses.deep_view().take(
                i as int,
            ).push(courses.deep_view()[i as int]));
            assert(out.deep_view().to_multiset() == courses.deep_view().take(
                (i + 1) as int,
            ).to_multiset());
        }
        i = i + 1;
    }
    proof {
        assert(courses.deep_view().take(i as int) =~= courses.deep_view());
        lemma_course_le_total_ordering();
        courses.deep_view().lemma_sort_by_ensures(leq);
        vstd::seq_lib::lemma_sorted_unique(
            out.deep_view(),
            courses.deep_view().sort_by(leq),
            leq,
        );
    }
    out
}

/// Removes adjacent duplicates from a course list: of each run of equal
/// neighbours the first is kept.
pub open spec fn dedup_of(s: Seq<CourseV>) -> Seq<CourseV>
    decreases s.len(),
{
    if s.len() == 0 {
        s
    } else if s.len() >= 2 && s.last() == s[s.len() - 2] {
        dedup_of(s.drop_last())
    } else {
        dedup_of(s.drop_last()).push(s.last())
    }
}

/// The `distinct` policy: sort by the course order, and keep one of each
/// run of equal courses.
pub open spec fn distinct_of(s: Seq<CourseV>) -> Seq<CourseV> {
    dedup_of(s.sort_by(course_le_fn()))
}

/// Removes adjacent duplicate courses.
fn dedup_adjacent(courses: &Vec<Course>) -> (r: Vec<Course>)
    ensures
        r.deep_view() == dedup_of(courses.deep_view()),
{
    let mut out: Vec<Course> = Vec::new();
    let mut i: usize = 0;
    while i < courses.len()
        invariant
            i <= courses.len(),
            out.deep_view() == dedup_of(courses.deep_view().take(i as int)),
        decreases courses.len() - i,
    {
        let ghost pre = out.deep_view();
        if i == 0 || !(course_compare(&courses[i - 1], &courses[i]) == Rel::Equal) {
            out.push(courses[i].clone());
        }
        proof {
            let dv = courses.deep_view();
            let t = dv.take((i + 1) as int);
            assert(t.drop_last() =~= dv.take(i as int));
            assert(t.last() == dv[i as int]);
            if i > 0 {
                lemma_course_cmp_facts(dv[i - 1 as int], dv[i as int], dv[i as int]);
                assert(t[t.len() - 2] == dv[i - 1]);
            }
            if i == 0 || dv[i as int] != dv[i - 1] {
                assert(out.deep_view() =~= pre.push(dv[i as int]));
            }
        }
        i = i + 1;
    }
    proof {
        assert(courses.deep_view().take(i as int) =~= courses.deep_view());
    }
    out
}

/// Applies the `distinct` policy to a course list: the result is the
/// input sorted in the course order with adjacent duplicates removed.
pub fn distinct_courses(courses: &Vec<Course>) -> (r: Vec<Course>)
    ensures
        r.deep_view() == distinct_of(courses.deep_view()),
{
    let sorted = sort_courses(courses);
    dedup_adjacent(&sorted)
}

proof fn lemma_dedup_sorted(s: Seq<CourseV>)
    requires
        sorted_by(s, course_le_fn()),
    ensures
        dedup_of(s).no_duplicates(),
        sorted_by(dedup_of(s), course_le_fn()),
        dedup_of(s).to_multiset().subset_of(s.to_multiset()),
        forall|x: CourseV| #[trigger] dedup_of(s).contains(x) <==> s.contains(x),
    decreases s.len(),
{
    broadcast use vstd::multiset::group_multiset_axioms;

    let leq = course_le_fn();
    let d = dedup_of(s);
    if s.len() == 0 {
    } else {
        let t = s.drop_last();
        let x = s.last();
        assert(sorted_by(t, leq)) by {
            assert forall|p: int, q: int| 0 <= p < q < t.len() implies #[trigger] leq(
                t[p],
                t[q],
            ) by {
                assert(leq(s[p], s[q]));
            }
        }
        lemma_dedup_sorted(t);
        assert(s =~= t.push(x));
        assert(s.to_multiset() == t.to_multiset().insert(x));
        if s.len() >= 2 && x == s[s.len() - 2] {
            assert(d == dedup_of(t));
            assert forall|v: CourseV| #[trigger] d.to_multiset().count(v) <= s.to_multiset().count(
                v,
            ) by {
                assert(d.to_multiset().count(v) <= t.to_multiset().count(v));
            }
            assert forall|v: CourseV| #[trigger] d.contains(v) <==> s.contains(v) by {
                if s.contains(v) {
                    let k = choose|k: int| 0 <= k < s.len() && s[k] == v;
                    if k == s.len() - 1 {
                        assert(t[s.len() - 2] == v);
                    } else {
                        assert(t[k] == v);
                    }
                    assert(t.contains(v));
                }
                if d.contains(v) {
                    assert(t.contains(v));
                    let k = choose|k: int| 0 <= k < t.len() && t[k] == v;
                    assert(s[k] == v);
                }
            }
        } else {
            assert(d == dedup_of(t).push(x));
            assert(d.to_multiset() == dedup_of(t).to_multiset().insert(x));
            assert forall|v: CourseV| #[trigger] d.to_multiset().count(v) <= s.to_multiset().count(
                v,
            ) by {
                assert(dedup_of(t).to_multiset().count(v) <= t.to_multiset().count(v));
            }
            assert forall|v: CourseV| #[trigger] d.contains(v) <==> s.contains(v) by {
                if s.contains(v) {
                    let k = choose|k: int| 0 <= k < s.len() && s[k] == v;
                    if k < s.len() - 1 {
                        assert(t[k] == v);
                        assert(dedup_of(t).contains(v));
                        let m = choose|m: int| 0 <= m < dedup_of(t).len() && dedup_of(t)[m] == v;
                        assert(d[m] == v);
                    } else {
                        assert(d.last() == v);
                    }
                }
                if d.contains(v) {
                    let m = choose|m: int| 0 <= m < d.len() && d[m] == v;
                    if m < d.len() - 1 {
                        assert(dedup_of(t)[m] == v);
                        assert(dedup_of(t).contains(v));
                        assert(t.contains(v));
                        let k = choose|k: int| 0 <= k < t.len() && t[k] == v;
                        assert(s[k] == v);
                    } else {
                        assert(s.last() == v);
                    }
                }
            }
            if t.len() > 0 {
                // The new last element differs from every kept element:
                // each kept element sorts no later than `t`'s last, which
                // sorts strictly before `x`.
                assert forall|m: int| 0 <= m < dedup_of(t).len() implies dedup_of(t)[m] != x by {
                    if dedup_of(t)[m] == x {
                        assert(dedup_of(t).contains(x));
                        assert(t.contains(x));
                        let k = choose|k: int| 0 <= k < t.len() && t[k] == x;
                        assert(leq(s[k], s[s.len() - 2]));
                        assert(leq(s[s.len() - 2], s[s.len() - 1]));
                        lemma_course_cmp_facts(t.last(), x, x);
                        lemma_course_cmp_facts(x, t.last(), x);
                        assert(leq(x, t.last()));
                        assert(leq(t.last(), x));
                    }
                }
            }
            assert forall|p: int, q: int|
                0 <= p < q < d.len() implies #[trigger] leq(d[p], d[q]) && d[p] != d[q] by {
                if q < d.len() - 1 {
                    assert(leq(dedup_of(t)[p], dedup_of(t)[q]));
                    assert(dedup_of(t)[p] != dedup_of(t)[q]);
                } else {
                    assert(dedup_of(t).contains(d[p]));
                    assert(t.contains(d[p]));
                    let k = choose|k: int| 0 <= k < t.len() && t[k] == d[p];
                    if k < t.len() - 1 {
                        assert(leq(s[k], s[t.len() - 1]));
                    }
                    assert(leq(t.last(), x));
                    lemma_course_cmp_facts(d[p], t.last(), x);
                }
            }
        }
    }
}

/// The distinct policy never invents a course and never keeps a repeat:
/// its result has no two equal elements, and as a multiset it is
/// contained in the input.
pub proof fn lemma_distinct_dedup(s: Seq<CourseV>)
    ensures
        distinct_of(s).no_duplicates(),
        distinct_of(s).to_multiset().subset_of(s.to_multiset()),
        forall|x: CourseV| #[trigger] distinct_of(s).contains(x) <==> s.contains(x),
{
    broadcast use vstd::multiset::group_multiset_axioms;

    let leq = course_le_fn();
    lemma_course_le_total_ordering();
    s.lemma_sort_by_ensures(leq);
    lemma_dedup_sorted(s.sort_by(leq));
    assert forall|x: CourseV| #[trigger] distinct_of(s).contains(x) <==> s.contains(x) by {
        assert(s.sort_by(leq).contains(x) <==> s.contains(x)) by {
            if s.contains(x) {
                assert(s.to_multiset().count(x) > 0);
                assert(s.sort_by(leq).to_multiset().count(x) > 0);
            }
            if s.sort_by(leq).contains(x) {
                assert(s.sort_by(leq).to_multiset().count(x) > 0);
                assert(s.to_multiset().count(x) > 0);
            }
        }
    }
}

} // verus!
