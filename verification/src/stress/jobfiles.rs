//! stress-ng jobfiles: where they live, how their `run` directive is set and
//! how many stressors they define.
use vstd::prelude::*;

use crate::app::{ExecutionMode, TestCategory, CATEGORY_COUNT};
use crate::text::{
    lemma_back_ws_bounds, lemma_back_ws_tail, lemma_skip_ws_bounds, lemma_skip_ws_extend,
    lemma_tokens_append, lemma_tokens_no_ws,
    lemma_lines_chars, lemma_lines_from_shift, lemma_lines_of_join,
    lemma_lines_single, lemma_line_end_bounds, lemma_line_end_prefix, lemma_trim_drop_last_ws,
    lines_from, line_end, strip_cr, back_ws, chars_of, contains_char, ends_with_char, is_whitespace, join_lines,
    join_with_newlines, lines, owned, parses_as_u32, parses_u32, push_char, push_chars,
    skip_ws, split_lines, split_whitespace, starts_with, starts_with_chars, string_of, tokens,
    trim, trim_chars, views,
};

verus! {

// ---------------------------------------------------------------------------
// Paths
// ---------------------------------------------------------------------------

/// `base` joined with `name` the way `Path::join` does on Unix: an absolute
/// `name` replaces `base`; otherwise a `'/'` separates them unless `base` is
/// empty or already ends with one.
pub open spec fn path_join(base: Seq<char>, name: Seq<char>) -> Seq<char> {
    if name.len() > 0 && name[0] == '/' {
        name
    } else if base.len() == 0 || base.last() == '/' {
        base + name
    } else {
        base + seq!['/'] + name
    }
}

/// `base` joined with `name` (see [`path_join`]).
pub fn join_path(base: &str, name: &str) -> (r: String)
    ensures
        r@ == path_join(base@, name@),
{
    let b = chars_of(base);
    let n = chars_of(name);
    if n.len() > 0 && n[0] == '/' {
        return string_of(&n);
    }
    let mut out = string_of(&b);
    if !(b.len() == 0 || b[b.len() - 1] == '/') {
        push_char(&mut out, '/');
    }
    push_chars(&mut out, &n);
    out
}

/// Whether something exists at `path` on the file system (std's
/// `Path::exists`). What is on disk can change at any time, so nothing is
/// stated of the answer.
#[verifier::external_body]
pub(crate) fn path_exists(path: &str) -> bool {
    std::path::Path::new(path).exists()
}

// ---------------------------------------------------------------------------
// The run directive
// ---------------------------------------------------------------------------

pub open spec fn mode_word(mode: ExecutionMode) -> Seq<char> {
    match mode {
        ExecutionMode::Sequential => "sequential"@,
        ExecutionMode::Parallel => "parallel"@,
    }
}

/// The word stress-ng's `run` directive takes for `mode`.
pub fn execution_mode_str(mode: ExecutionMode) -> (r: &'static str)
    ensures
        r@ == mode_word(mode),
{
    match mode {
        ExecutionMode::Sequential => "sequential",
        ExecutionMode::Parallel => "parallel",
    }
}

/// The directive line `run <mode>`.
pub open spec fn run_directive(mode: ExecutionMode) -> Seq<char> {
    "run "@ + mode_word(mode)
}

/// A line whose trimmed text starts with `"run "` is a run directive.
pub open spec fn is_run_line(line: Seq<char>) -> bool {
    starts_with(trim(line), "run "@)
}

/// A line that is neither blank nor a `#` comment.
pub open spec fn is_body_line(line: Seq<char>) -> bool {
    trim(line).len() > 0 && !starts_with(trim(line), "#"@)
}

/// Every run directive replaced by `d`.
pub open spec fn replace_run_lines(ls: Seq<Seq<char>>, d: Seq<char>) -> Seq<Seq<char>> {
    ls.map_values(|l: Seq<char>| if is_run_line(l) { d } else { l })
}

/// Index of the first body line at or after `i`, or the number of lines.
pub open spec fn first_body_line(ls: Seq<Seq<char>>, i: int) -> int
    decreases ls.len() - i,
{
    if 0 <= i < ls.len() && !is_body_line(ls[i]) {
        first_body_line(ls, i + 1)
    } else {
        i
    }
}

pub proof fn lemma_first_body_line_bounds(ls: Seq<Seq<char>>, i: int)
    requires
        0 <= i <= ls.len(),
    ensures
        i <= first_body_line(ls, i) <= ls.len(),
    decreases ls.len() - i,
{
    if i < ls.len() && !is_body_line(ls[i]) {
        lemma_first_body_line_bounds(ls, i + 1);
    }
}

/// `d` inserted before the first body line, or appended when there is none.
pub open spec fn insert_before_body(ls: Seq<Seq<char>>, d: Seq<char>) -> Seq<Seq<char>> {
    let k = first_body_line(ls, 0);
    ls.take(k).push(d) + ls.skip(k)
}

/// What [`JobfileManager::set_execution_mode`] makes of `content`.
pub open spec fn with_execution_mode(content: Seq<char>, mode: ExecutionMode) -> Seq<char> {
    let ls = lines(content);
    let d = run_directive(mode);
    if exists|i: int| 0 <= i < ls.len() && is_run_line(#[trigger] ls[i]) {
        join_lines(replace_run_lines(ls, d))
    } else {
        join_lines(insert_before_body(ls, d))
    }
}

// ---------------------------------------------------------------------------
// Stressor lines
// ---------------------------------------------------------------------------

/// A line that defines a stressor: after trimming it is not empty, not a
/// comment, does not start with one of the global options, holds no `'-'`,
/// and its second whitespace token is a `u32` or ends with `'%'`.
pub open spec fn is_stressor_line(line: Seq<char>) -> bool {
    let t = trim(line);
    let toks = tokens(t);
    &&& t.len() > 0
    &&& !starts_with(t, "#"@)
    &&& !starts_with(t, "run "@)
    &&& !starts_with(t, "timeout"@)
    &&& !starts_with(t, "verbose"@)
    &&& !starts_with(t, "metrics"@)
    &&& !starts_with(t, "verify"@)
    &&& !starts_with(t, "aggressive"@)
    &&& !starts_with(t, "keep-name"@)
    &&& !starts_with(t, "log-"@)
    &&& !starts_with(t, "oom-"@)
    &&& !starts_with(t, "thermal"@)
    &&& !t.contains('-')
    &&& toks.len() >= 2
    &&& (parses_as_u32(toks[1]) || ends_with_char(toks[1], '%'))
}

/// The number of stressor lines among `ls`.
pub open spec fn stressor_count(ls: Seq<Seq<char>>) -> nat
    decreases ls.len(),
{
    if ls.len() == 0 {
        0
    } else {
        stressor_count(ls.drop_last()) + if is_stressor_line(ls.last()) {
            1nat
        } else {
            0nat
        }
    }
}

/// A jobfile never has more stressors than lines.
pub proof fn law_stressors_at_most_lines(ls: Seq<Seq<char>>)
    ensures
        stressor_count(ls) <= ls.len(),
    decreases ls.len(),
{
    if ls.len() > 0 {
        law_stressors_at_most_lines(ls.drop_last());
    }
}

fn is_stressor_line_exec(line: &[char]) -> (r: bool)
    ensures
        r == is_stressor_line(line@),
{
    let t = trim_chars(line);
    if t.len() == 0 {
        return false;
    }
    if starts_with_chars(&t, &chars_of("#")) || starts_with_chars(&t, &chars_of("run "))
        || starts_with_chars(&t, &chars_of("timeout")) || starts_with_chars(
        &t,
        &chars_of("verbose"),
    ) || starts_with_chars(&t, &chars_of("metrics")) || starts_with_chars(
        &t,
        &chars_of("verify"),
    ) || starts_with_chars(&t, &chars_of("aggressive")) || starts_with_chars(
        &t,
        &chars_of("keep-name"),
    ) || starts_with_chars(&t, &chars_of("log-")) || starts_with_chars(&t, &chars_of("oom-"))
        || starts_with_chars(&t, &chars_of("thermal")) {
        return false;
    }
    if contains_char(&t, '-') {
        return false;
    }
    let toks = split_whitespace(&t);
    if toks.len() < 2 {
        return false;
    }
    let second = &toks[1];
    assert(views(toks@)[1] == second@);
    let n = second.len();
    parses_u32(second) || (n > 0 && second[n - 1] == '%')
}

/// Counts the stressor definitions in jobfile text (see
/// [`is_stressor_line`]).
pub fn count_stressors(content: &str) -> (r: usize)
    ensures
        r == stressor_count(lines(content@)),
{
    let chars = chars_of(content);
    let ls = split_lines(&chars);
    let n = ls.len();
    let mut count: usize = 0;
    for i in 0..n
        invariant
            n == ls@.len(),
            views(ls@) == lines(content@),
            count == stressor_count(views(ls@).take(i as int)),
            count <= i,
    {
        let is_stressor = is_stressor_line_exec(ls[i].as_slice());
        proof {
            let t = views(ls@).take(i + 1);
            assert(t.drop_last() =~= views(ls@).take(i as int));
            assert(t.last() == ls@[i as int]@);
        }
        if is_stressor {
            count += 1;
        }
    }
    assert(views(ls@).take(n as int) =~= views(ls@));
    count
}

/// The number of lines of `content`, as `str::lines` counts them.
pub fn count_lines(content: &str) -> (r: usize)
    ensures
        r == lines(content@).len(),
{
    let chars = chars_of(content);
    let ls = split_lines(&chars);
    ls.len()
}

// ---------------------------------------------------------------------------
// The jobfile manager
// ---------------------------------------------------------------------------

/// Manages stress-ng jobfiles: the directory that holds them and the
/// directory that receives the copies prepared for a run.
pub struct JobfileManager {
    jobfiles_dir: String,
    temp_dir: String,
}

impl JobfileManager {
    pub closed spec fn dir(&self) -> Seq<char> {
        self.jobfiles_dir@
    }

    pub closed spec fn temp(&self) -> Seq<char> {
        self.temp_dir@
    }

    /// A manager for the jobfiles in `jobfiles_dir`, preparing copies in
    /// `temp_dir`.
    pub fn with_dirs(jobfiles_dir: String, temp_dir: String) -> (r: JobfileManager)
        ensures
            r.dir() == jobfiles_dir@,
            r.temp() == temp_dir@,
    {
        JobfileManager { jobfiles_dir, temp_dir }
    }

    /// The path of the jobfile for `category`.
    pub fn get_jobfile_path(&self, category: TestCategory) -> (r: String)
        ensures
            r@ == path_join(self.dir(), category.jobfile_text()),
    {
        join_path(self.jobfiles_dir.as_str(), category.jobfile_name())
    }

    /// Whether the jobfile for `category` exists at the path that
    /// [`JobfileManager::get_jobfile_path`] gives. The file system answers and
    /// may change at any time, so nothing is stated of the answer.
    pub fn jobfile_exists(&self, category: TestCategory) -> (r: bool) {
        let path = self.get_jobfile_path(category);
        path_exists(path.as_str())
    }

    /// The jobfiles directory.
    pub fn jobfiles_dir(&self) -> (r: &str)
        ensures
            r@ == self.dir(),
    {
        self.jobfiles_dir.as_str()
    }

    /// The directory that receives the prepared copies.
    pub fn temp_dir(&self) -> (r: &str)
        ensures
            r@ == self.temp(),
    {
        self.temp_dir.as_str()
    }

    /// Sets the `run` directive of jobfile text to `mode`: every existing
    /// run directive becomes `run <mode>`; without one, `run <mode>` is
    /// inserted before the first line that is neither blank nor a comment,
    /// or appended. The lines are joined with `'\n'`.
    pub fn set_execution_mode(content: &str, mode: ExecutionMode) -> (r: String)
        ensures
            r@ == with_execution_mode(content@, mode),
    {
        let chars = chars_of(content);
        let ls = split_lines(&chars);
        let mut directive = chars_of("run ");
        let word = chars_of(execution_mode_str(mode));
        let mut k: usize = 0;
        while k < word.len()
            invariant
                0 <= k <= word@.len(),
                directive@ == "run "@ + word@.take(k as int),
            decreases word@.len() - k,
        {
            directive.push(word[k]);
            assert(word@.take(k + 1) =~= word@.take(k as int).push(word@[k as int]));
            k += 1;
        }
        assert(word@.take(word@.len() as int) =~= word@);
        let ghost d = run_directive(mode);
        assert(directive@ =~= d);
        let ghost ls_v = views(ls@);
        let run = chars_of("run ");
        let hash = chars_of("#");
        let n = ls.len();
        let mut out: Vec<Vec<char>> = Vec::new();
        let mut found = false;
        for i in 0..n
            invariant
                n == ls@.len(),
                ls_v == views(ls@),
                ls_v == lines(content@),
                run@ == "run "@,
                directive@ == d,
                views(out@) == replace_run_lines(ls_v.take(i as int), d),
                found <==> exists|j: int| 0 <= j < i && is_run_line(#[trigger] ls_v[j]),
        {
            let t = trim_chars(ls[i].as_slice());
            let ghost old_out = out@;
            assert(ls_v[i as int] == ls@[i as int]@);
            if starts_with_chars(&t, &run) {
                out.push(directive.clone());
                found = true;
            } else {
                out.push(ls[i].clone());
            }
            proof {
                assert(replace_run_lines(ls_v.take(i + 1), d) =~= replace_run_lines(
                    ls_v.take(i as int),
                    d,
                ).push(if is_run_line(ls_v[i as int]) { d } else { ls_v[i as int] }));
                assert(views(out@) =~= views(old_out).push(out@[i as int]@));
            }
        }
        assert(ls_v.take(n as int) =~= ls_v);
        if found {
            return join_with_newlines(&out);
        }
        // No run directive: insert one before the first body line.
        let mut result: Vec<Vec<char>> = Vec::new();
        let mut inserted = false;
        let ghost kk = first_body_line(ls_v, 0);
        proof {
            lemma_first_body_line_bounds(ls_v, 0);
            assert(replace_run_lines(ls_v, d) =~= ls_v);
        }
        for i in 0..n
            invariant
                n == ls@.len(),
                ls_v == views(ls@),
                views(out@) == ls_v,
                hash@ == "#"@,
                directive@ == d,
                kk == first_body_line(ls_v, 0),
                0 <= kk <= n,
                inserted <==> kk < i,
                !inserted ==> first_body_line(ls_v, i as int) == kk,
                views(result@) == (if inserted {
                    ls_v.take(kk).push(d) + ls_v.subrange(kk, i as int)
                } else {
                    ls_v.take(i as int)
                }),
        {
            let t = trim_chars(out[i].as_slice());
            let body = !starts_with_chars(&t, &hash) && t.len() != 0;
            assert(out@[i as int]@ == ls_v[i as int]);
            let ghost old_result = views(result@);
            if !inserted && body {
                result.push(directive.clone());
                inserted = true;
                proof {
                    assert(first_body_line(ls_v, i as int) == i);
                }
            } else if !inserted {
                proof {
                    assert(first_body_line(ls_v, i as int) == first_body_line(ls_v, i + 1));
                    lemma_first_body_line_bounds(ls_v, i + 1);
                }
            }
            let ghost mid_result = views(result@);
            result.push(out[i].clone());
            proof {
                assert(views(result@) =~= mid_result.push(ls_v[i as int]));
                if inserted {
                    if kk == i {
                        assert(mid_result =~= old_result.push(d));
                        assert(old_result =~= ls_v.take(kk));
                    }
                    assert(views(result@) =~= ls_v.take(kk).push(d) + ls_v.subrange(kk, i + 1));
                } else {
                    assert(views(result@) =~= ls_v.take(i + 1));
                }
            }
        }
        if !inserted {
            let ghost before = views(result@);
            result.push(directive.clone());
            proof {
                assert(kk == n) by {
                    if kk < n {
                    }
                }
                assert(views(result@) =~= before.push(d));
                assert(ls_v.skip(kk) =~= Seq::<Seq<char>>::empty());
                assert(ls_v.take(n as int) =~= ls_v);
                assert(views(result@) =~= insert_before_body(ls_v, d));
            }
        } else {
            proof {
                assert(ls_v.subrange(kk, n as int) =~= ls_v.skip(kk));
                assert(views(result@) =~= insert_before_body(ls_v, d));
            }
        }
        join_with_newlines(&result)
    }

    /// The path of the prepared copy of `category`'s jobfile for `mode`:
    /// `<temp dir>/<mode word>_<jobfile name>`.
    pub fn temp_jobfile_path(&self, category: TestCategory, mode: ExecutionMode) -> (r: String)
        ensures
            r@ == path_join(
                self.temp(),
                mode_word(mode) + seq!['_'] + category.jobfile_text(),
            ),
    {
        let mut name = owned(execution_mode_str(mode));
        push_char(&mut name, '_');
        push_chars(&mut name, &chars_of(category.jobfile_name()));
        join_path(self.temp_dir.as_str(), name.as_str())
    }

    /// The categories whose jobfile exists, in display order, given for
    /// each category of [`TestCategory::all`] whether its jobfile
    /// ([`JobfileManager::get_jobfile_path`]) exists (`present[k]` for
    /// `all()[k]`): the file system is asked by the caller.
    pub fn available_categories(&self, present: &Vec<bool>) -> (r: Vec<TestCategory>)
        requires
            present@.len() == CATEGORY_COUNT,
        ensures
            r@ == categories_present(present@),
    {
        let all = TestCategory::all();
        let mut r: Vec<TestCategory> = Vec::new();
        for i in 0..CATEGORY_COUNT
            invariant
                all@ == TestCategory::all_seq(),
                present@.len() == CATEGORY_COUNT,
                r@ == TestCategory::all_seq().take(i as int).filter(
                    |c: TestCategory| present@[c.idx()],
                ),
        {
            proof {
                TestCategory::lemma_all_seq_indexing();
            }
            let c = all[i];
            assert(TestCategory::all_seq().take(i + 1).drop_last() =~= TestCategory::all_seq().take(
                i as int,
            ));
            assert(TestCategory::all_seq().take(i + 1).last() == c);
            reveal_with_fuel(Seq::<_>::filter, 1);
            if present[c.index()] {
                r.push(c);
            }
        }
        assert(TestCategory::all_seq().take(6) =~= TestCategory::all_seq());
        r
    }

    /// Every category, in display order, paired with whether its jobfile
    /// exists, given as for [`JobfileManager::available_categories`].
    pub fn validate_jobfiles(&self, present: &Vec<bool>) -> (r: Vec<(TestCategory, bool)>)
        requires
            present@.len() == CATEGORY_COUNT,
        ensures
            r@ == presence_pairs(present@),
    {
        let mut r: Vec<(TestCategory, bool)> = Vec::new();
        for i in 0..CATEGORY_COUNT
            invariant
                present@.len() == CATEGORY_COUNT,
                r@.len() == i,
                forall|k: int| 0 <= k < i ==> (#[trigger] r@[k]) == (TestCategory::all_seq()[k], present@[k]),
        {
            r.push((TestCategory::from_index(i), present[i]));
        }
        assert(r@ =~= presence_pairs(present@));
        r
    }
}

/// The categories, in display order, whose flag in `present` is set.
pub open spec fn categories_present(present: Seq<bool>) -> Seq<TestCategory> {
    TestCategory::all_seq().filter(|c: TestCategory| present[c.idx()])
}

/// Each category, in display order, with its flag in `present`.
pub open spec fn presence_pairs(present: Seq<bool>) -> Seq<(TestCategory, bool)> {
    Seq::new(CATEGORY_COUNT as nat, |k: int| (TestCategory::all_seq()[k], present[k]))
}

proof fn lemma_filter_pairs(
    cats: Seq<TestCategory>,
    pairs: Seq<(TestCategory, bool)>,
    present: Seq<bool>,
)
    requires
        cats.len() == pairs.len(),
        forall|k: int| 0 <= k < cats.len() ==> #[trigger] pairs[k] == (cats[k], present[cats[k].idx()]),
    ensures
        cats.filter(|c: TestCategory| present[c.idx()]) == pairs.filter(
            |p: (TestCategory, bool)| p.1,
        ).map_values(|p: (TestCategory, bool)| p.0),
    decreases cats.len(),
{
    reveal_with_fuel(Seq::<_>::filter, 1);
    if cats.len() > 0 {
        let c0 = cats.drop_last();
        let p0 = pairs.drop_last();
        assert forall|k: int| 0 <= k < c0.len() implies #[trigger] p0[k] == (c0[k], present[c0[k].idx()]) by {
            assert(p0[k] == pairs[k] && c0[k] == cats[k]);
        }
        lemma_filter_pairs(c0, p0, present);
        assert(pairs.last() == (cats.last(), present[cats.last().idx()])) by {
            assert(pairs[pairs.len() - 1] == (cats[cats.len() - 1], present[cats[cats.len() - 1].idx()]));
        }
        let f0 = p0.filter(|p: (TestCategory, bool)| p.1);
        if present[cats.last().idx()] {
            assert(f0.push(pairs.last()).map_values(|p: (TestCategory, bool)| p.0) =~= f0.map_values(
                |p: (TestCategory, bool)| p.0,
            ).push(cats.last()));
        }
    }
}

/// The available categories are exactly those that the validation reports
/// present, in the same order.
pub proof fn law_available_are_the_valid(present: Seq<bool>)
    requires
        present.len() == CATEGORY_COUNT,
    ensures
        categories_present(present) == presence_pairs(present).filter(|p: (TestCategory, bool)| p.1).map_values(
            |p: (TestCategory, bool)| p.0,
        ),
{
    TestCategory::lemma_all_seq_indexing();
    lemma_filter_pairs(TestCategory::all_seq(), presence_pairs(present), present);
}

/// The first of the candidate jobfiles directories that exists
/// (`exists[k]` for the `k`-th candidate), if any.
pub fn first_existing(exists: &Vec<bool>) -> (r: Option<usize>)
    ensures
        r matches Some(k) ==> k < exists@.len() && exists@[k as int] && forall|j: int|
            0 <= j < k ==> !exists@[j],
        r is None ==> forall|j: int| 0 <= j < exists@.len() ==> !exists@[j],
{
    let n = exists.len();
    for i in 0..n
        invariant
            n == exists@.len(),
            forall|j: int| 0 <= j < i ==> !exists@[j],
    {
        if exists[i] {
            return Some(i);
        }
    }
    None
}

/// Information about a jobfile.
#[derive(Clone, Debug)]
pub struct JobfileInfo {
    pub category: TestCategory,
    pub path: String,
    pub exists: bool,
    pub line_count: usize,
    pub stressor_count: usize,
}

impl JobfileInfo {
    /// The information for `category`'s jobfile at `path`, given whether it
    /// exists and, when it could be read, its text. Counts are zero unless
    /// the file exists and was read.
    pub fn from_contents(
        category: TestCategory,
        path: String,
        exists: bool,
        content: Option<&str>,
    ) -> (r: JobfileInfo)
        ensures
            r.category == category,
            r.path@ == path@,
            r.exists == exists,
            (exists && content is Some) ==> r.line_count == lines(content.unwrap()@).len(),
            (exists && content is Some) ==> r.stressor_count == stressor_count(
                lines(content.unwrap()@),
            ),
            !(exists && content is Some) ==> r.line_count == 0 && r.stressor_count == 0,
    {
        let (line_count, stressor_count) = match content {
            Some(text) if exists => (count_lines(text), count_stressors(text)),
            _ => (0, 0),
        };
        JobfileInfo { category, path, exists, line_count, stressor_count }
    }
}

/// A copy of jobfile text with its mode set keeps exactly one kind of run
/// directive: every run directive in the result is `run <mode>`, and there
/// is at least one.
pub proof fn law_run_directive_is_set(content: Seq<char>, mode: ExecutionMode)
    ensures
        exists|ls: Seq<Seq<char>>|
            #![trigger join_lines(ls)]
            join_lines(ls) == with_execution_mode(content, mode) && (exists|i: int|
                0 <= i < ls.len() && ls[i] == run_directive(mode)) && (forall|i: int|
                0 <= i < ls.len() && is_run_line(#[trigger] ls[i]) ==> ls[i] == run_directive(
                    mode,
                )),
{
    let ls = lines(content);
    let d = run_directive(mode);
    assert(is_run_line(d)) by {
        lemma_run_directive_trimmed(mode);
    }
    if exists|i: int| 0 <= i < ls.len() && is_run_line(#[trigger] ls[i]) {
        let r = replace_run_lines(ls, d);
        let i = choose|i: int| 0 <= i < ls.len() && is_run_line(#[trigger] ls[i]);
        assert(r[i] == d);
        assert(join_lines(r) == with_execution_mode(content, mode));
    } else {
        let r = insert_before_body(ls, d);
        let k = first_body_line(ls, 0);
        lemma_first_body_line_bounds(ls, 0);
        assert(r[k] == d);
        assert forall|i: int| 0 <= i < r.len() && is_run_line(#[trigger] r[i]) implies r[i] == d by {
            if i < k {
                assert(r[i] == ls[i]);
            } else if i > k {
                assert(r[i] == ls[i - 1]);
            }
        }
        assert(join_lines(r) == with_execution_mode(content, mode));
    }
}

proof fn lemma_run_directive_trimmed(mode: ExecutionMode)
    ensures
        trim(run_directive(mode)) == run_directive(mode),
        starts_with(run_directive(mode), "run "@),
{
    let d = run_directive(mode);
    reveal_strlit("run ");
    reveal_strlit("sequential");
    reveal_strlit("parallel");
    assert(!is_whitespace(d[0]));
    assert(skip_ws(d, 0) == 0);
    assert(!is_whitespace(d.last()));
    assert(back_ws(d, 0, d.len() as int) == d.len());
    assert(d.subrange(0, d.len() as int) =~= d);
    assert(d.subrange(0, 4) =~= "run "@);
}

proof fn lemma_run_directive_plain(mode: ExecutionMode)
    ensures
        !run_directive(mode).contains('\n'),
        !run_directive(mode).contains('\r'),
        run_directive(mode).len() > 0,
        is_run_line(run_directive(mode)),
        !is_stressor_line(run_directive(mode)),
{
    let d = run_directive(mode);
    reveal_strlit("run ");
    reveal_strlit("sequential");
    reveal_strlit("parallel");
    lemma_run_directive_trimmed(mode);
    assert forall|k: int| 0 <= k < d.len() implies d[k] != '\n' && d[k] != '\r' by {
        if k < 4 {
            assert(d[k] == "run "@[k]);
        } else {
            assert(d[k] == mode_word(mode)[k - 4]);
        }
    }
}

proof fn lemma_stressor_count_add(x: Seq<Seq<char>>, y: Seq<Seq<char>>)
    ensures
        stressor_count(x + y) == stressor_count(x) + stressor_count(y),
    decreases y.len(),
{
    if y.len() == 0 {
        assert(x + y =~= x);
    } else {
        lemma_stressor_count_add(x, y.drop_last());
        assert((x + y).drop_last() =~= x + y.drop_last());
        assert((x + y).last() == y.last());
    }
}

proof fn lemma_stressor_single(l: Seq<char>)
    ensures
        stressor_count(seq![l]) == (if is_stressor_line(l) {
            1nat
        } else {
            0nat
        }),
        l.len() == 0 ==> !is_stressor_line(l),
{
    assert(seq![l].drop_last() =~= Seq::<Seq<char>>::empty());
    assert(stressor_count(Seq::<Seq<char>>::empty()) == 0);
    assert(seq![l].last() == l);
    if l.len() == 0 {
        assert(trim(l).len() == 0);
    }
}

/// Whether a line defines a stressor does not depend on a trailing `'\r'`.
proof fn lemma_stressor_strip_cr(raw: Seq<char>)
    ensures
        is_stressor_line(strip_cr(raw)) == is_stressor_line(raw),
{
    if raw.len() > 0 && raw.last() == '\r' {
        lemma_trim_drop_last_ws(raw);
    }
}

proof fn lemma_count_split(a: Seq<char>, b: Seq<char>, i: int)
    requires
        0 <= i <= a.len(),
    ensures
        stressor_count(lines_from(a + seq!['\n'] + b, i)) == stressor_count(lines_from(a, i))
            + stressor_count(lines(b)),
    decreases a.len() - i,
{
    let s = a + seq!['\n'] + b;
    let n = a.len() as int;
    let p = a + seq!['\n'];
    assert(s =~= p + b);
    lemma_lines_from_shift(p, b, 0);
    assert(lines_from(s, n + 1) == lines(b));
    if i == n {
        assert(s[n] == '\n');
        assert(line_end(s, n) == n);
        let empty = Seq::<char>::empty();
        assert(s.subrange(n, n) =~= empty);
        assert(strip_cr(empty) == empty);
        assert(lines_from(s, n) == seq![empty] + lines(b));
        lemma_stressor_count_add(seq![empty], lines(b));
        lemma_stressor_single(empty);
        assert(lines_from(a, n) =~= Seq::<Seq<char>>::empty());
        assert(Seq::<Seq<char>>::empty().len() == 0);
    } else {
        let e = line_end(a, i);
        lemma_line_end_prefix(a, b, i);
        lemma_line_end_bounds(a, i);
        let raw = a.subrange(i, e);
        assert(s.subrange(i, e) =~= raw);
        lemma_stressor_strip_cr(raw);
        let line_s = strip_cr(raw);
        let line_a = if e < n {
            strip_cr(raw)
        } else {
            raw
        };
        assert(lines_from(s, i) == seq![line_s] + lines_from(s, e + 1));
        assert(lines_from(a, i) == seq![line_a] + lines_from(a, e + 1));
        lemma_stressor_count_add(seq![line_s], lines_from(s, e + 1));
        lemma_stressor_count_add(seq![line_a], lines_from(a, e + 1));
        lemma_stressor_single(line_s);
        lemma_stressor_single(line_a);
        if e < n {
            lemma_count_split(a, b, e + 1);
        } else {
            assert(lines_from(a, e + 1) =~= Seq::<Seq<char>>::empty());
            assert(stressor_count(Seq::<Seq<char>>::empty()) == 0);
        }
    }
}

/// Two jobfile texts joined with a line break between them define the
/// stressors of both: `count_stressors(a + "\n" + b)` is
/// `count_stressors(a) + count_stressors(b)`.
pub proof fn law_stressors_of_joined_text(a: Seq<char>, b: Seq<char>)
    ensures
        stressor_count(lines(a + seq!['\n'] + b)) == stressor_count(lines(a)) + stressor_count(
            lines(b),
        ),
{
    lemma_count_split(a, b, 0);
}

/// Lines without line breaks, joined and split again, define as many
/// stressors as they do themselves.
proof fn lemma_count_join(ls: Seq<Seq<char>>)
    requires
        forall|k: int| 0 <= k < ls.len() ==> !(#[trigger] ls[k]).contains('\n'),
    ensures
        stressor_count(lines(join_lines(ls))) == stressor_count(ls),
    decreases ls.len(),
{
    if ls.len() == 0 {
        assert(lines(join_lines(ls)) =~= Seq::<Seq<char>>::empty());
    } else if ls.len() == 1 {
        lemma_lines_single(ls[0]);
        lemma_stressor_single(ls[0]);
        assert(ls =~= seq![ls[0]]);
        assert(stressor_count(Seq::<Seq<char>>::empty()) == 0);
    } else {
        let init = ls.drop_last();
        assert forall|k: int| 0 <= k < init.len() implies !(#[trigger] init[k]).contains('\n') by {
            assert(init[k] == ls[k]);
        }
        lemma_count_join(init);
        law_stressors_of_joined_text(join_lines(init), ls.last());
        assert(!ls[ls.len() - 1].contains('\n'));
        lemma_lines_single(ls.last());
        lemma_stressor_single(ls.last());
        assert(stressor_count(Seq::<Seq<char>>::empty()) == 0);
        lemma_stressor_count_add(init, seq![ls.last()]);
        assert(init + seq![ls.last()] =~= ls);
    }
}

proof fn lemma_replace_keeps_count(ls: Seq<Seq<char>>, d: Seq<char>)
    requires
        !is_stressor_line(d),
    ensures
        stressor_count(replace_run_lines(ls, d)) == stressor_count(ls),
    decreases ls.len(),
{
    if ls.len() > 0 {
        lemma_replace_keeps_count(ls.drop_last(), d);
        let r = replace_run_lines(ls, d);
        assert(r.drop_last() =~= replace_run_lines(ls.drop_last(), d));
        assert(r.last() == (if is_run_line(ls.last()) {
            d
        } else {
            ls.last()
        }));
    }
}

/// Setting the execution mode never changes how many stressors a jobfile
/// defines: the run directive is not a stressor.
pub proof fn law_mode_change_keeps_stressors(content: Seq<char>, mode: ExecutionMode)
    ensures
        stressor_count(lines(with_execution_mode(content, mode))) == stressor_count(lines(content)),
{
    let ls = lines(content);
    let d = run_directive(mode);
    lemma_run_directive_plain(mode);
    lemma_lines_chars(content, 0, '\n');
    let ls2 = if exists|i: int| 0 <= i < ls.len() && is_run_line(#[trigger] ls[i]) {
        replace_run_lines(ls, d)
    } else {
        insert_before_body(ls, d)
    };
    assert(with_execution_mode(content, mode) == join_lines(ls2));
    if exists|i: int| 0 <= i < ls.len() && is_run_line(#[trigger] ls[i]) {
        lemma_replace_keeps_count(ls, d);
        assert forall|k: int| 0 <= k < ls2.len() implies !(#[trigger] ls2[k]).contains('\n') by {
            assert(ls2[k] == d || ls2[k] == ls[k]);
        }
    } else {
        let k = first_body_line(ls, 0);
        lemma_first_body_line_bounds(ls, 0);
        assert(ls =~= ls.take(k) + ls.skip(k));
        assert(ls2 =~= ls.take(k) + seq![d] + ls.skip(k));
        lemma_stressor_count_add(ls.take(k), ls.skip(k));
        lemma_stressor_count_add(ls.take(k) + seq![d], ls.skip(k));
        lemma_stressor_count_add(ls.take(k), seq![d]);
        lemma_stressor_single(d);
        assert forall|j: int| 0 <= j < ls2.len() implies !(#[trigger] ls2[j]).contains('\n') by {
            if j < k {
                assert(ls2[j] == ls[j]);
            } else if j > k {
                assert(ls2[j] == ls[j - 1]);
            }
        }
    }
    lemma_count_join(ls2);
}

/// Setting the mode twice is setting it once to the second mode (and so
/// setting it is idempotent), for jobfile text without carriage returns
/// whose last line is not blank.
pub proof fn law_last_mode_wins(content: Seq<char>, m1: ExecutionMode, m2: ExecutionMode)
    requires
        !content.contains('\r'),
        lines(content).len() > 0 ==> lines(content).last().len() > 0,
    ensures
        with_execution_mode(with_execution_mode(content, m1), m2) == with_execution_mode(content, m2),
{
    let ls = lines(content);
    let d1 = run_directive(m1);
    let d2 = run_directive(m2);
    lemma_run_directive_plain(m1);
    lemma_run_directive_plain(m2);
    lemma_lines_chars(content, 0, '\r');
    lemma_first_body_line_bounds(ls, 0);
    let k = first_body_line(ls, 0);
    let has_run = exists|i: int| 0 <= i < ls.len() && is_run_line(#[trigger] ls[i]);
    let ls1 = if has_run {
        replace_run_lines(ls, d1)
    } else {
        insert_before_body(ls, d1)
    };
    let ls2 = if has_run {
        replace_run_lines(ls, d2)
    } else {
        insert_before_body(ls, d2)
    };
    assert(with_execution_mode(content, m1) == join_lines(ls1));
    assert(with_execution_mode(content, m2) == join_lines(ls2));
    // The lines of the first result come back unchanged.
    let w: int = if has_run {
        choose|i: int| 0 <= i < ls.len() && is_run_line(#[trigger] ls[i])
    } else {
        k
    };
    if has_run {
        assert(ls1[w] == d1);
        assert forall|j: int| 0 <= j < ls1.len() implies !(#[trigger] ls1[j]).contains('\n')
            && !ls1[j].contains('\r') by {
            assert(ls1[j] == d1 || ls1[j] == ls[j]);
        }
        assert(ls1.last().len() > 0) by {
            assert(ls1.last() == d1 || ls1.last() == ls.last());
        }
    } else {
        assert(ls1 =~= ls.take(k) + seq![d1] + ls.skip(k));
        assert(ls1[w] == d1);
        assert forall|j: int| 0 <= j < ls1.len() implies !(#[trigger] ls1[j]).contains('\n')
            && !ls1[j].contains('\r') by {
            if j < k {
                assert(ls1[j] == ls[j]);
            } else if j > k {
                assert(ls1[j] == ls[j - 1]);
            }
        }
        assert(ls1.last().len() > 0) by {
            if k == ls.len() {
                assert(ls1.last() == d1);
            } else {
                assert(ls1.last() == ls.last());
            }
        }
    }
    lemma_lines_of_join(ls1);
    let lsj = lines(join_lines(ls1));
    assert(lsj == ls1);
    assert(is_run_line(lsj[w]));
    assert(with_execution_mode(join_lines(ls1), m2) == join_lines(replace_run_lines(ls1, d2)));
    // The second call replaces exactly the directive the first one wrote.
    if has_run {
        assert(replace_run_lines(ls1, d2) =~= ls2);
    } else {
        assert(ls2 =~= ls.take(k) + seq![d2] + ls.skip(k));
        assert forall|j: int| 0 <= j < ls.len() implies !is_run_line(#[trigger] ls[j]) by {
        }
        let r = replace_run_lines(ls1, d2);
        assert forall|j: int| 0 <= j < r.len() implies r[j] == ls2[j] by {
            if j < k {
                assert(ls1[j] == ls[j]);
            } else if j > k {
                assert(ls1[j] == ls[j - 1]);
            }
        }
        assert(r =~= ls2);
    }
}

/// Whitespace can stand in `kw` only as its last character.
spec fn plain_but_last(kw: Seq<char>) -> bool {
    forall|j: int| 0 <= j < kw.len() - 1 ==> !is_whitespace(#[trigger] kw[j])
}

proof fn lemma_option_words_plain()
    ensures
        plain_but_last("#"@),
        plain_but_last("run "@),
        plain_but_last("timeout"@),
        plain_but_last("verbose"@),
        plain_but_last("metrics"@),
        plain_but_last("verify"@),
        plain_but_last("aggressive"@),
        plain_but_last("keep-name"@),
        plain_but_last("log-"@),
        plain_but_last("oom-"@),
        plain_but_last("thermal"@),
{
    reveal_strlit("#");
    reveal_strlit("run ");
    reveal_strlit("timeout");
    reveal_strlit("verbose");
    reveal_strlit("metrics");
    reveal_strlit("verify");
    reveal_strlit("aggressive");
    reveal_strlit("keep-name");
    reveal_strlit("log-");
    reveal_strlit("oom-");
    reveal_strlit("thermal");
}

/// A text that holds whitespace and starts another text starts with one
/// of these words only if it starts with it itself.
proof fn lemma_prefix_keeps_start(t1: Seq<char>, t2: Seq<char>, kw: Seq<char>)
    requires
        t1.len() <= t2.len(),
        t2.subrange(0, t1.len() as int) == t1,
        exists|q: int| 0 <= q < t1.len() && is_whitespace(#[trigger] t1[q]),
        plain_but_last(kw),
    ensures
        starts_with(t2, kw) ==> starts_with(t1, kw),
{
    if starts_with(t2, kw) {
        if kw.len() <= t1.len() {
            assert(t1.subrange(0, kw.len() as int) =~= t2.subrange(0, kw.len() as int));
        } else {
            let q = choose|q: int| 0 <= q < t1.len() && is_whitespace(#[trigger] t1[q]);
            assert(t2.subrange(0, t1.len() as int)[q] == t2[q]);
            assert(t2.subrange(0, kw.len() as int)[q] == t2[q]);
            assert(kw[q] == t1[q]);
        }
    }
}

/// A stressor line stays one when more whitespace-separated text follows
/// it (a trailing comment, for one): whether a line defines a stressor is
/// decided by its first two tokens, so a jobfile line such as
/// `vm 2   # two vm stressors` counts.
pub proof fn law_trailing_token_keeps_stressor(a: Seq<char>, sep: Seq<char>, b: Seq<char>)
    requires
        is_stressor_line(a),
        sep.len() > 0,
        forall|j: int| 0 <= j < sep.len() ==> is_whitespace(#[trigger] sep[j]),
        b.len() > 0,
        forall|j: int| 0 <= j < b.len() ==> !is_whitespace(#[trigger] b[j]) && b[j] != '-',
    ensures
        is_stressor_line(a + sep + b),
        !a.contains('\n') && !sep.contains('\n') ==> stressor_count(lines(a + sep + b))
            == stressor_count(lines(a)),
{
    let s = a + sep + b;
    let t1 = trim(a);
    let lo = skip_ws(a, 0);
    lemma_skip_ws_bounds(a, 0);
    lemma_back_ws_bounds(a, lo, a.len() as int);
    let hi = back_ws(a, lo, a.len() as int);
    lemma_back_ws_tail(a, lo, a.len() as int);
    assert(t1 == a.subrange(lo, hi));
    assert(lo < hi);
    assert(s =~= a + (sep + b));
    lemma_skip_ws_extend(a, sep + b, 0);
    assert(skip_ws(s, 0) == lo);
    assert(s[s.len() - 1] == b[b.len() - 1]);
    assert(back_ws(s, lo, s.len() as int) == s.len());
    let t2 = trim(s);
    assert(t2 == s.subrange(lo, s.len() as int));
    let w = a.subrange(hi, a.len() as int) + sep;
    assert forall|k: int| 0 <= k < w.len() implies is_whitespace(#[trigger] w[k]) by {
        if k < a.len() - hi {
            assert(w[k] == a[hi + k]);
        } else {
            assert(w[k] == sep[k - (a.len() - hi)]);
        }
    }
    assert(t2 =~= t1 + w + b);
    lemma_tokens_append(t1, w, b, 0);
    let toks1 = tokens(t1);
    let toks2 = tokens(t2);
    assert(toks2 == toks1 + seq![b]);
    assert(toks2[1] == toks1[1]);
    assert(exists|q: int| 0 <= q < t1.len() && is_whitespace(#[trigger] t1[q])) by {
        if !exists|q: int| 0 <= q < t1.len() && is_whitespace(#[trigger] t1[q]) {
            lemma_tokens_no_ws(t1, 0);
        }
    }
    assert(t2.subrange(0, t1.len() as int) =~= t1);
    lemma_option_words_plain();
    lemma_prefix_keeps_start(t1, t2, "#"@);
    lemma_prefix_keeps_start(t1, t2, "run "@);
    lemma_prefix_keeps_start(t1, t2, "timeout"@);
    lemma_prefix_keeps_start(t1, t2, "verbose"@);
    lemma_prefix_keeps_start(t1, t2, "metrics"@);
    lemma_prefix_keeps_start(t1, t2, "verify"@);
    lemma_prefix_keeps_start(t1, t2, "aggressive"@);
    lemma_prefix_keeps_start(t1, t2, "keep-name"@);
    lemma_prefix_keeps_start(t1, t2, "log-"@);
    lemma_prefix_keeps_start(t1, t2, "oom-"@);
    lemma_prefix_keeps_start(t1, t2, "thermal"@);
    assert(!t2.contains('-')) by {
        if t2.contains('-') {
            let k = choose|k: int| 0 <= k < t2.len() && t2[k] == '-';
            if k < t1.len() {
                assert(t1[k] == '-');
                assert(t1.contains('-'));
            } else if k < t1.len() + w.len() {
                assert(is_whitespace(w[k - t1.len()]));
            } else {
                assert(b[k - t1.len() - w.len()] == '-');
            }
        }
    }
    if !a.contains('\n') && !sep.contains('\n') {
        assert(!s.contains('\n')) by {
            if s.contains('\n') {
                let k = choose|k: int| 0 <= k < s.len() && s[k] == '\n';
                if k < a.len() {
                    assert(a[k] == '\n');
                } else if k < a.len() + sep.len() {
                    assert(sep[k - a.len()] == '\n');
                } else {
                    assert(is_whitespace(b[k - a.len() - sep.len()]));
                }
            }
        }
        lemma_lines_single(a);
        lemma_lines_single(s);
        lemma_stressor_single(a);
        lemma_stressor_single(s);
    }
}

} // verus!
