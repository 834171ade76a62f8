//! The decisions of the command line: default paths, what to do with an
//! existing output file, and how the answers typed at the prompts are read.

use vstd::prelude::*;
use crate::config::ConfigError;
use crate::merge::UpdateCandidate;
use crate::text::{concat, trim, trim_white_space};

verus! {

// ── Paths ───────────────────────────────────────────────────────────────────

/// The configuration path: the one given, else `cluster.yml` where that file
/// exists (`default_exists`), else an error.
pub fn resolve_config(raw: Option<String>, default_exists: bool) -> (r: Result<String, ConfigError>)
    ensures
        match raw {
            Some(p) => r matches Ok(q) && q == p,
            None => if default_exists {
                r matches Ok(q) && q@ == "cluster.yml"@
            } else {
                r matches Err(ConfigError::DefaultConfigMissing)
            },
        },
{
    match raw {
        Some(p) => Ok(p),
        None => {
            if default_exists {
                Ok(String::from_str("cluster.yml"))
            } else {
                Err(ConfigError::DefaultConfigMissing)
            }
        },
    }
}

/// The output path: the one given, else `report.yml`.
pub fn resolve_output(raw: Option<String>) -> (r: String)
    ensures
        match raw {
            Some(p) => r == p,
            None => r@ == "report.yml"@,
        },
{
    match raw {
        Some(p) => p,
        None => String::from_str("report.yml"),
    }
}

/// A plain file name: no separator or drive character, and not `.` or `..`.
/// Such a name is its own file name on every platform.
pub open spec fn plain_file_name(name: Seq<char>) -> bool {
    &&& name.len() > 0
    &&& name != seq!['.']
    &&& name != seq!['.', '.']
    &&& forall|i: int| 0 <= i < name.len() ==> (#[trigger] name[i]) != '/' && name[i] != '\\' && name[i] != ':'
}

/// A file name has an extension when a `.` follows its first character.
pub open spec fn has_dot_after_start(name: Seq<char>) -> bool {
    exists|i: int| 1 <= i < name.len() && #[trigger] name[i] == '.'
}

/// What follows the last `/` of `s` (all of `s` where it has none).
pub open spec fn last_component(s: Seq<char>) -> Seq<char>
    decreases s.len(),
{
    if s.len() == 0 {
        s
    } else if s.last() == '/' {
        Seq::empty()
    } else {
        last_component(s.drop_last()).push(s.last())
    }
}

/// A path whose file name is its last `/`-separated component on every
/// platform: no `\` or `:` (a separator or a drive prefix on some
/// platforms), no leading `//` (a server prefix on some platforms), and a
/// last component that is a plain file name.
pub open spec fn simple_path(name: Seq<char>) -> bool {
    &&& forall|i: int| 0 <= i < name.len() ==> (#[trigger] name[i]) != '\\' && name[i] != ':'
    &&& !(name.len() >= 2 && name[0] == '/' && name[1] == '/')
    &&& plain_file_name(last_component(name))
}

/// Whether `std::path::Path::extension` finds no extension in `name`. Its
/// documentation: the extension is taken from the file name, the last
/// component of the path; there is none when there is no file name, when the
/// file name has no `.` inside it, or when it starts with `.` and has no other
/// `.`. The contract states this for simple paths only; for other paths the
/// answer depends on the platform's separators and prefixes, and nothing is
/// claimed.
#[verifier::external_body]
fn lacks_extension(name: &str) -> (r: bool)
    ensures
        simple_path(name@) ==> r == !has_dot_after_start(last_component(name@)),
{
    std::path::Path::new(name).extension().is_none()
}

/// What `normalize_extension` makes of a simple path: unchanged when its file
/// name has an extension, else with `.yml` appended.
pub open spec fn normalized_name(name: Seq<char>) -> Seq<char> {
    if has_dot_after_start(last_component(name)) {
        name
    } else {
        name + ".yml"@
    }
}

/// Append `.yml` to `name` when its file name has no extension; leave any
/// extension unchanged.
pub fn normalize_extension(name: &str) -> (r: String)
    ensures
        r@ == name@ || r@ == name@ + ".yml"@,
        simple_path(name@) ==> r@ == normalized_name(name@),
{
    if lacks_extension(name) {
        concat(name, ".yml")
    } else {
        String::from_str(name)
    }
}

// ── The existing output file ────────────────────────────────────────────────

/// What to do with the output path before the clusters are queried.
#[derive(Debug, Clone, Copy, PartialEq, Eq, Structural)]
pub enum OutputPlan {
    /// No file there: write the fresh report.
    Write,
    /// A valid report, and `--update` given or nobody to ask: update it silently.
    SilentUpdate,
    /// A valid report and someone to ask: offer update or another file.
    AskUpdateOrAlternate,
    /// Not a report and nobody to ask: overwrite it.
    Overwrite,
    /// Not a report and someone to ask: offer overwrite or another file.
    AskOverwriteOrAlternate,
}

/// The plan for an output path: whether a file exists there, whether it reads
/// as a report, whether `--update` was given and whether stdin is a terminal.
pub fn plan_output(exists: bool, is_report: bool, update_flag: bool, is_tty: bool) -> (r: OutputPlan)
    ensures
        !exists ==> r == OutputPlan::Write,
        exists && is_report ==> r == if update_flag || !is_tty {
            OutputPlan::SilentUpdate
        } else {
            OutputPlan::AskUpdateOrAlternate
        },
        exists && !is_report ==> r == if is_tty {
            OutputPlan::AskOverwriteOrAlternate
        } else {
            OutputPlan::Overwrite
        },
{
    if !exists {
        OutputPlan::Write
    } else if is_report {
        if update_flag || !is_tty {
            OutputPlan::SilentUpdate
        } else {
            OutputPlan::AskUpdateOrAlternate
        }
    } else if is_tty {
        OutputPlan::AskOverwriteOrAlternate
    } else {
        OutputPlan::Overwrite
    }
}

// ── Answers at the prompts ──────────────────────────────────────────────────

/// `c` lowercases to the letter `l` (`l` in either case; for `k` also the
/// Kelvin sign, whose lowercase is `k`).
pub open spec fn folds_to(c: char, l: char) -> bool {
    ||| c == l
    ||| (l == 'a' && c == 'A')
    ||| (l == 'k' && (c == 'K' || c == '\u{212A}'))
    ||| (l == 'o' && c == 'O')
    ||| (l == 's' && c == 'S')
    ||| (l == 'u' && c == 'U')
}

/// The answer, once trimmed and lowercased, is the single letter `l`.
pub open spec fn answer_is(answer: Seq<char>, l: char) -> bool {
    trim(answer).len() == 1 && folds_to(trim(answer)[0], l)
}

/// The answer is empty once trimmed.
pub open spec fn answer_empty(answer: Seq<char>) -> bool {
    trim(answer).len() == 0
}

fn letter_of(t: &String, l: char) -> (r: bool)
    requires
        l == 'a' || l == 'k' || l == 'o' || l == 's' || l == 'u',
    ensures
        r == (t@.len() == 1 && folds_to(t@[0], l)),
{
    if t.as_str().unicode_len() != 1 {
        return false;
    }
    let c = t.as_str().get_char(0);
    c == l || (l == 'a' && c == 'A') || (l == 'k' && (c == 'K' || c == '\u{212A}')) || (l == 'o'
        && c == 'O') || (l == 's' && c == 'S') || (l == 'u' && c == 'U')
}

/// An answer to "update or alternate file".
#[derive(Debug, Clone, Copy, PartialEq, Eq, Structural)]
pub enum UpdateOrAlternate {
    Update,
    Alternate,
    Invalid,
}

/// Read an answer to "[u]pdate / [a]lternate file (u)": nothing or `u`
/// updates, `a` asks for another file, anything else is asked again.
pub fn read_update_or_alternate(answer: &str) -> (r: UpdateOrAlternate)
    ensures
        r == if answer_empty(answer@) || answer_is(answer@, 'u') {
            UpdateOrAlternate::Update
        } else if answer_is(answer@, 'a') {
            UpdateOrAlternate::Alternate
        } else {
            UpdateOrAlternate::Invalid
        },
{
    let t = trim_white_space(answer);
    if t.as_str().unicode_len() == 0 || letter_of(&t, 'u') {
        UpdateOrAlternate::Update
    } else if letter_of(&t, 'a') {
        UpdateOrAlternate::Alternate
    } else {
        UpdateOrAlternate::Invalid
    }
}

/// An answer to "overwrite or alternate file".
#[derive(Debug, Clone, Copy, PartialEq, Eq, Structural)]
pub enum OverwriteOrAlternate {
    Overwrite,
    Alternate,
    Invalid,
}

/// Read an answer to "[o]verwrite / [a]lternate file (o)": nothing or `o`
/// overwrites, `a` asks for another file, anything else is asked again.
pub fn read_overwrite_or_alternate(answer: &str) -> (r: OverwriteOrAlternate)
    ensures
        r == if answer_empty(answer@) || answer_is(answer@, 'o') {
            OverwriteOrAlternate::Overwrite
        } else if answer_is(answer@, 'a') {
            OverwriteOrAlternate::Alternate
        } else {
            OverwriteOrAlternate::Invalid
        },
{
    let t = trim_white_space(answer);
    if t.as_str().unicode_len() == 0 || letter_of(&t, 'o') {
        OverwriteOrAlternate::Overwrite
    } else if letter_of(&t, 'a') {
        OverwriteOrAlternate::Alternate
    } else {
        OverwriteOrAlternate::Invalid
    }
}

/// The file name typed for the alternate report: trimmed, with `.yml` added
/// when it has no extension; none when it is empty (the prompt asks again).
pub fn read_alternate_name(answer: &str) -> (r: Option<String>)
    ensures
        answer_empty(answer@) ==> r is None,
        !answer_empty(answer@) ==> (r matches Some(p) && (p@ == trim(answer@) || p@ == trim(answer@) + ".yml"@)
            && (simple_path(trim(answer@)) ==> p@ == normalized_name(trim(answer@)))),
{
    let t = trim_white_space(answer);
    if t.as_str().unicode_len() == 0 {
        None
    } else {
        Some(normalize_extension(t.as_str()))
    }
}

/// An answer about one cluster with newer data.
#[derive(Debug, Clone, Copy, PartialEq, Eq, Structural)]
pub enum ClusterAnswer {
    Update,
    Skip,
    UpdateAll,
    SkipAll,
    Invalid,
}

/// Read an answer to "[u]pdate / [s]kip / [a]update all / [k]skip all (u)".
pub fn read_cluster_answer(answer: &str) -> (r: ClusterAnswer)
    ensures
        r == if answer_empty(answer@) || answer_is(answer@, 'u') {
            ClusterAnswer::Update
        } else if answer_is(answer@, 's') {
            ClusterAnswer::Skip
        } else if answer_is(answer@, 'a') {
            ClusterAnswer::UpdateAll
        } else if answer_is(answer@, 'k') {
            ClusterAnswer::SkipAll
        } else {
            ClusterAnswer::Invalid
        },
{
    let t = trim_white_space(answer);
    if t.as_str().unicode_len() == 0 || letter_of(&t, 'u') {
        ClusterAnswer::Update
    } else if letter_of(&t, 's') {
        ClusterAnswer::Skip
    } else if letter_of(&t, 'a') {
        ClusterAnswer::UpdateAll
    } else if letter_of(&t, 'k') {
        ClusterAnswer::SkipAll
    } else {
        ClusterAnswer::Invalid
    }
}

// ── The per-cluster update prompt ───────────────────────────────────────────

/// Whether the remaining candidates are still asked about, or settled by an
/// earlier "update all" or "skip all".
#[derive(Debug, Clone, Copy, PartialEq, Eq, Structural)]
pub enum PromptMode {
    Asking,
    UpdateAll,
    SkipAll,
}

/// What the prompt needs next.
#[derive(Debug, Clone, Copy, PartialEq, Eq, Structural)]
pub enum PromptAction {
    /// Ask about the candidate at this index.
    Ask(usize),
    /// Every candidate is settled.
    Done,
}

/// The per-cluster update prompt: the next candidate to settle, the mode, and
/// the (license uid, cluster uid) pairs to keep from the existing report.
#[derive(Debug)]
pub struct UpdatePrompt {
    pub next: usize,
    pub mode: PromptMode,
    pub keep: Vec<(String, String)>,
}

/// The pair of a candidate, as kept.
pub open spec fn candidate_pair(c: UpdateCandidate) -> (Seq<char>, Seq<char>) {
    (c.license_uid@, c.cluster_uid@)
}

/// The keep set as pairs of character sequences.
pub open spec fn keep_pairs(keep: Seq<(String, String)>) -> Seq<(Seq<char>, Seq<char>)> {
    keep.map_values(|p: (String, String)| (p.0@, p.1@))
}

/// The pairs of the candidates `cs[from..]`.
pub open spec fn pairs_from(cs: Seq<UpdateCandidate>, from: int) -> Seq<(Seq<char>, Seq<char>)> {
    cs.skip(from).map_values(|c: UpdateCandidate| candidate_pair(c))
}

/// The prompt as the contracts see it: the next candidate, the mode and the
/// pairs kept.
pub open spec fn prompt_view(p: UpdatePrompt) -> (int, PromptMode, Seq<(Seq<char>, Seq<char>)>) {
    (p.next as int, p.mode, keep_pairs(p.keep@))
}

/// What `advance` does to a prompt `s` and what it asks for next: while
/// asking, nothing changes and the candidate at `next` is asked about, or
/// nothing when all are settled; after "update all" the rest is settled with
/// nothing kept; after "skip all" the rest is settled and kept.
pub open spec fn advanced(
    cands: Seq<UpdateCandidate>,
    s: (int, PromptMode, Seq<(Seq<char>, Seq<char>)>),
) -> ((int, PromptMode, Seq<(Seq<char>, Seq<char>)>), PromptAction) {
    match s.1 {
        PromptMode::Asking => (s, if s.0 < cands.len() {
            PromptAction::Ask(s.0 as usize)
        } else {
            PromptAction::Done
        }),
        PromptMode::UpdateAll => ((cands.len() as int, PromptMode::UpdateAll, s.2), PromptAction::Done),
        PromptMode::SkipAll => (
            (cands.len() as int, PromptMode::SkipAll, s.2 + pairs_from(cands, s.0)),
            PromptAction::Done,
        ),
    }
}

/// What `answer` does to a prompt `s` asking about the candidate at `s.0`:
/// update moves on; skip keeps that candidate and moves on; update all and
/// skip all do the same and change the mode; an invalid answer changes
/// nothing.
pub open spec fn answered(
    cands: Seq<UpdateCandidate>,
    s: (int, PromptMode, Seq<(Seq<char>, Seq<char>)>),
    a: ClusterAnswer,
) -> (int, PromptMode, Seq<(Seq<char>, Seq<char>)>) {
    match a {
        ClusterAnswer::Invalid => s,
        ClusterAnswer::Update => (s.0 + 1, PromptMode::Asking, s.2),
        ClusterAnswer::Skip => (s.0 + 1, PromptMode::Asking, s.2.push(candidate_pair(cands[s.0]))),
        ClusterAnswer::UpdateAll => (s.0 + 1, PromptMode::UpdateAll, s.2),
        ClusterAnswer::SkipAll => (s.0 + 1, PromptMode::SkipAll, s.2.push(candidate_pair(cands[s.0]))),
    }
}

fn keep_pair(keep: &mut Vec<(String, String)>, c: &UpdateCandidate)
    ensures
        keep_pairs(final(keep)@) == keep_pairs(old(keep)@).push(candidate_pair(*c)),
{
    keep.push((c.license_uid.clone(), c.cluster_uid.clone()));
    assert(keep_pairs(keep@) =~= keep_pairs(old(keep)@).push(candidate_pair(*c)));
}

impl UpdatePrompt {
    /// Nothing settled yet, nothing kept.
    pub fn new() -> (r: UpdatePrompt)
        ensures
            r.next == 0,
            r.mode == PromptMode::Asking,
            r.keep@.len() == 0,
    {
        UpdatePrompt { next: 0, mode: PromptMode::Asking, keep: Vec::new() }
    }

    /// Settle what needs no answer and say what is needed next. While asking,
    /// that is the candidate at `next`, or nothing when all are settled. After
    /// "update all" the remaining candidates are updated (nothing is kept);
    /// after "skip all" they are all kept.
    pub fn advance(&mut self, candidates: &Vec<UpdateCandidate>) -> (r: PromptAction)
        requires
            old(self).next <= candidates@.len(),
        ensures
            final(self).next <= candidates@.len(),
            (prompt_view(*final(self)), r) == advanced(candidates@, prompt_view(*old(self))),
            old(self).mode == PromptMode::Asking ==> *final(self) == *old(self),
    {
        let n = candidates.len();
        match self.mode {
            PromptMode::Asking => {
                if self.next < n {
                    PromptAction::Ask(self.next)
                } else {
                    PromptAction::Done
                }
            },
            PromptMode::UpdateAll => {
                self.next = n;
                PromptAction::Done
            },
            PromptMode::SkipAll => {
                let ghost start = self.next as int;
                let ghost base = keep_pairs(self.keep@);
                proof {
                    assert(pairs_from(candidates@, start).take(0) =~= Seq::<(Seq<char>, Seq<char>)>::empty());
                    assert(base + pairs_from(candidates@, start).take(0) =~= base);
                }
                while self.next < n
                    invariant
                        n == candidates@.len(),
                        0 <= start <= self.next <= n,
                        self.mode == PromptMode::SkipAll,
                        keep_pairs(self.keep@) == base + pairs_from(candidates@, start).take(self.next - start),
                    decreases n - self.next,
                {
                    let i = self.next;
                    assert(start <= i < n);
                    keep_pair(&mut self.keep, &candidates[i]);
                    proof {
                        let ps = pairs_from(candidates@, start);
                        assert(ps.len() == n - start);
                        assert(candidates@.skip(start)[i - start] == candidates@[i as int]);
                        assert(ps[i - start] == candidate_pair(candidates@[i as int]));
                        assert(ps.take(i + 1 - start) =~= ps.take(i - start).push(ps[i - start]));
                    }
                    self.next = i + 1;
                }
                proof {
                    assert(pairs_from(candidates@, start).take(n - start) =~= pairs_from(candidates@, start));
                }
                PromptAction::Done
            },
        }
    }

    /// Apply the answer about the candidate at `next`: update moves on; skip
    /// keeps it and moves on; update all and skip all do the same and settle
    /// the rest; an invalid answer changes nothing (it is asked again).
    pub fn answer(&mut self, candidates: &Vec<UpdateCandidate>, a: ClusterAnswer)
        requires
            old(self).mode == PromptMode::Asking,
            old(self).next < candidates@.len(),
        ensures
            prompt_view(*final(self)) == answered(candidates@, prompt_view(*old(self)), a),
            a == ClusterAnswer::Invalid ==> *final(self) == *old(self),
    {
        let i = self.next;
        let n = candidates.len();
        assert(i < n);
        let j = i + 1;
        match a {
            ClusterAnswer::Update => {
                self.next = j;
            },
            ClusterAnswer::Skip => {
                keep_pair(&mut self.keep, &candidates[i]);
                self.next = j;
            },
            ClusterAnswer::UpdateAll => {
                self.mode = PromptMode::UpdateAll;
                self.next = j;
            },
            ClusterAnswer::SkipAll => {
                keep_pair(&mut self.keep, &candidates[i]);
                self.mode = PromptMode::SkipAll;
                self.next = j;
            },
            ClusterAnswer::Invalid => {},
        }
    }
}

/// A prompt session: from prompt `s`, `advance`, and while it asks about a
/// candidate and answers remain, `answer` with the first of them and go on
/// with the rest. The prompt at the end.
pub open spec fn run_prompt(
    cands: Seq<UpdateCandidate>,
    s: (int, PromptMode, Seq<(Seq<char>, Seq<char>)>),
    answers: Seq<ClusterAnswer>,
) -> (int, PromptMode, Seq<(Seq<char>, Seq<char>)>)
    decreases answers.len(),
{
    let (t, action) = advanced(cands, s);
    match action {
        PromptAction::Done => t,
        PromptAction::Ask(_) => if answers.len() == 0 {
            t
        } else {
            run_prompt(cands, answered(cands, t, answers[0]), answers.drop_first())
        },
    }
}

/// The pairs that the answers decide to keep of the candidates from `i` on:
/// invalid answers are skipped over; "update" keeps nothing of its
/// candidate, "skip" keeps it; "update all" keeps nothing more, "skip all"
/// keeps its candidate and all after it. Nothing is decided past the last
/// answer.
pub open spec fn kept_by_answers(
    cands: Seq<UpdateCandidate>,
    i: int,
    answers: Seq<ClusterAnswer>,
) -> Seq<(Seq<char>, Seq<char>)>
    decreases answers.len(),
{
    if i >= cands.len() || answers.len() == 0 {
        Seq::empty()
    } else {
        let rest = answers.drop_first();
        match answers[0] {
            ClusterAnswer::Invalid => kept_by_answers(cands, i, rest),
            ClusterAnswer::Update => kept_by_answers(cands, i + 1, rest),
            ClusterAnswer::Skip => seq![candidate_pair(cands[i])] + kept_by_answers(cands, i + 1, rest),
            ClusterAnswer::UpdateAll => Seq::empty(),
            ClusterAnswer::SkipAll => pairs_from(cands, i),
        }
    }
}

/// A prompt session keeps exactly what the answers decide: from a prompt
/// asking at `next` with `kept` kept so far, driven by `advance` and `answer`
/// over `answers`, the pairs kept at the end are `kept` followed by the pairs
/// the answers keep, in candidate order, and it never moves past the last
/// candidate.
pub proof fn law_prompt_keeps_what_answers_decide(
    cands: Seq<UpdateCandidate>,
    next: int,
    kept: Seq<(Seq<char>, Seq<char>)>,
    answers: Seq<ClusterAnswer>,
)
    requires
        0 <= next <= cands.len(),
    ensures
        run_prompt(cands, (next, PromptMode::Asking, kept), answers).2 == kept + kept_by_answers(cands, next, answers),
        run_prompt(cands, (next, PromptMode::Asking, kept), answers).0 <= cands.len(),
    decreases answers.len(),
{
    let s = (next, PromptMode::Asking, kept);
    if next >= cands.len() || answers.len() == 0 {
        assert(kept + Seq::<(Seq<char>, Seq<char>)>::empty() =~= kept);
    } else {
        let rest = answers.drop_first();
        let p = candidate_pair(cands[next]);
        match answers[0] {
            ClusterAnswer::Invalid => {
                law_prompt_keeps_what_answers_decide(cands, next, kept, rest);
            },
            ClusterAnswer::Update => {
                law_prompt_keeps_what_answers_decide(cands, next + 1, kept, rest);
            },
            ClusterAnswer::Skip => {
                law_prompt_keeps_what_answers_decide(cands, next + 1, kept.push(p), rest);
                assert(kept.push(p) + kept_by_answers(cands, next + 1, rest)
                    =~= kept + (seq![p] + kept_by_answers(cands, next + 1, rest)));
            },
            ClusterAnswer::UpdateAll => {
                let t = answered(cands, s, answers[0]);
                assert(run_prompt(cands, t, rest) == advanced(cands, t).0);
                assert(kept + Seq::<(Seq<char>, Seq<char>)>::empty() =~= kept);
            },
            ClusterAnswer::SkipAll => {
                let t = answered(cands, s, answers[0]);
                assert(run_prompt(cands, t, rest) == advanced(cands, t).0);
                assert(cands.skip(next)[0] == cands[next]);
                assert(pairs_from(cands, next) =~= seq![p] + pairs_from(cands, next + 1));
                assert(kept.push(p) + pairs_from(cands, next + 1) =~= kept + pairs_from(cands, next));
            },
        }
    }
}

/// Appending text without `/` to a path appends it to its last component.
proof fn lemma_last_component_append(a: Seq<char>, b: Seq<char>)
    requires
        forall|i: int| 0 <= i < b.len() ==> (#[trigger] b[i]) != '/',
    ensures
        last_component(a + b) == last_component(a) + b,
    decreases b.len(),
{
    if b.len() == 0 {
        assert(a + b =~= a);
        assert(last_component(a) + b =~= last_component(a));
    } else {
        let c = b.drop_last();
        lemma_last_component_append(a, c);
        assert((a + b).drop_last() =~= a + c);
        assert((a + b).last() == b.last());
        assert(last_component(a) + b =~= (last_component(a) + c).push(b.last()));
    }
}

/// Normalizing a simple path twice changes nothing more than once: the
/// result is a simple path whose file name has an extension.
pub proof fn law_normalize_extension_idempotent(name: Seq<char>)
    requires
        simple_path(name),
    ensures
        simple_path(normalized_name(name)),
        normalized_name(normalized_name(name)) == normalized_name(name),
{
    reveal_strlit(".yml");
    let yml = ".yml"@;
    let n = normalized_name(name);
    let lc = last_component(name);
    if !has_dot_after_start(lc) {
        assert(yml.len() == 4 && yml[0] == '.' && yml[1] == 'y' && yml[2] == 'm' && yml[3] == 'l');
        lemma_last_component_append(name, yml);
        let ln = last_component(n);
        assert(ln == lc + yml);
        assert(ln[lc.len() as int] == '.');
        assert(has_dot_after_start(ln));
        assert forall|i: int| 0 <= i < ln.len() implies (#[trigger] ln[i]) != '/' && ln[i] != '\\' && ln[i] != ':' by {
            if i < lc.len() {
                assert(ln[i] == lc[i]);
            }
        }
        assert forall|i: int| 0 <= i < n.len() implies (#[trigger] n[i]) != '\\' && n[i] != ':' by {
            if i < name.len() {
                assert(n[i] == name[i]);
            }
        }
        assert(ln.len() > 2);
        if n.len() >= 2 && n[0] == '/' && n[1] == '/' {
            assert(n[0] == name[0]);
            if name.len() >= 2 {
                assert(n[1] == name[1]);
            }
        }
    }
}

} // verus!
