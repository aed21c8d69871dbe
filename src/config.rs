use vstd::prelude::*;
use vstd::string::{StrSliceExecFns, StringExecFns};

use crate::timetable::{weeks_view, Lesson, Week, WeekView};
use vstd::utf8::encode_utf8;

verus! {

/// A style rule: rooms whose code starts with `prefix` are drawn with these colors.
#[derive(Clone, Debug)]
pub struct Mapping {
    pub prefix: String,
    pub bg_color: String,
    pub fg_color: String,
    pub map_id: String,
    pub label: Option<String>,
}

/// The UTF-8 bytes of a string.
pub open spec fn bytes_of(s: Seq<char>) -> Seq<u8> {
    encode_utf8(s)
}

/// The secondary color used when a rule names none.
pub open spec fn default_fg_spec() -> Seq<char> {
    seq!['#', '2', '3', '1', 'f', '2', '0']
}

/// Whether rule `i` of `ms` applies to the room code `room`.
pub open spec fn rule_matches(ms: Seq<Mapping>, i: int, room: Seq<char>) -> bool {
    bytes_of(ms[i].prefix@).is_prefix_of(bytes_of(room))
}

/// The length in bytes of the prefix of rule `i`.
pub open spec fn prefix_len(ms: Seq<Mapping>, i: int) -> int {
    bytes_of(ms[i].prefix@).len() as int
}

/// Rule `i` is the one that a lookup of `room` selects: it matches, no matching rule
/// has a longer prefix, and no earlier matching rule has one as long.
pub open spec fn is_best_rule(ms: Seq<Mapping>, i: int, room: Seq<char>) -> bool {
    &&& 0 <= i < ms.len()
    &&& rule_matches(ms, i, room)
    &&& forall|j: int| 0 <= j < ms.len() && rule_matches(ms, j, room)
        ==> prefix_len(ms, j) <= prefix_len(ms, i)
    &&& forall|j: int| 0 <= j < i && rule_matches(ms, j, room)
        ==> prefix_len(ms, j) < prefix_len(ms, i)
}

/// Returns the default secondary color, `#231f20`.
pub fn default_fg_color() -> (r: String)
    ensures
        r@ == default_fg_spec(),
{
    proof {
        reveal_strlit("#231f20");
    }
    let r = String::from_str("#231f20");
    assert(r@ =~= default_fg_spec());
    r
}

impl Mapping {
    /// Builds a rule; a missing secondary color becomes the default one.
    pub fn new(
        prefix: String,
        bg_color: String,
        fg_color: Option<String>,
        map_id: String,
        label: Option<String>,
    ) -> (r: Mapping)
        ensures
            r.prefix == prefix,
            r.bg_color == bg_color,
            r.map_id == map_id,
            r.label == label,
            fg_color matches Some(c) ==> r.fg_color == c,
            fg_color is None ==> r.fg_color@ == default_fg_spec(),
    {
        let fg = match fg_color {
            Some(c) => c,
            None => default_fg_color(),
        };
        Mapping { prefix, bg_color, fg_color: fg, map_id, label }
    }
}

/// Whether the bytes of `p` begin the bytes of `s`.
fn starts_with(s: &str, p: &str) -> (r: bool)
    ensures
        r == bytes_of(p@).is_prefix_of(bytes_of(s@)),
{
    let sb = s.as_bytes();
    let pb = p.as_bytes();
    if pb.len() > sb.len() {
        return false;
    }
    let mut i: usize = 0;
    while i < pb.len()
        invariant
            pb@ == bytes_of(p@),
            sb@ == bytes_of(s@),
            pb@.len() <= sb@.len(),
            i <= pb@.len(),
            forall|k: int| 0 <= k < i ==> pb@[k] == sb@[k],
        decreases pb@.len() - i,
    {
        if pb[i] != sb[i] {
            return false;
        }
        i = i + 1;
    }
    true
}


/// A correction to one lesson, addressed by week number (from 1), day and period.
#[derive(Clone, Debug)]
pub struct Override {
    pub week: usize,
    pub day: String,
    pub period: String,
    pub subject: Option<String>,
    pub room: Option<String>,
    pub teacher: Option<String>,
    pub class_code: Option<String>,
}

/// What became of one override.
#[derive(Clone, Copy, Debug, PartialEq, Eq, Structural)]
pub enum OverrideOutcome {
    Applied,
    WeekOutOfRange,
    UnknownDay,
    UnknownPeriod,
    NoLesson,
}

/// A character with ASCII upper-case letters taken to lower case.
pub open spec fn ascii_fold(c: char) -> u32 {
    if 'A' <= c && c <= 'Z' {
        (c as u32 + 32) as u32
    } else {
        c as u32
    }
}

/// Equality of two strings up to the case of ASCII letters.
pub open spec fn eq_ignore_case(s: Seq<char>, k: Seq<char>) -> bool {
    &&& s.len() == k.len()
    &&& forall|i: int| 0 <= i < s.len() ==> ascii_fold(s[i]) == ascii_fold(k[i])
}

/// The day index that a day name stands for: full English names and their
/// three-letter abbreviations, Monday to Friday, in any case.
pub open spec fn day_of(s: Seq<char>) -> Option<usize> {
    if eq_ignore_case(s, "monday"@) || eq_ignore_case(s, "mon"@) {
        Some(0)
    } else if eq_ignore_case(s, "tuesday"@) || eq_ignore_case(s, "tue"@) {
        Some(1)
    } else if eq_ignore_case(s, "wednesday"@) || eq_ignore_case(s, "wed"@) {
        Some(2)
    } else if eq_ignore_case(s, "thursday"@) || eq_ignore_case(s, "thu"@) {
        Some(3)
    } else if eq_ignore_case(s, "friday"@) || eq_ignore_case(s, "fri"@) {
        Some(4)
    } else {
        None
    }
}

/// The period index that a period name stands for: PD, then L1 to L5, in any case.
pub open spec fn period_of(s: Seq<char>) -> Option<usize> {
    if eq_ignore_case(s, "PD"@) {
        Some(0)
    } else if eq_ignore_case(s, "L1"@) {
        Some(1)
    } else if eq_ignore_case(s, "L2"@) {
        Some(2)
    } else if eq_ignore_case(s, "L3"@) {
        Some(3)
    } else if eq_ignore_case(s, "L4"@) {
        Some(4)
    } else if eq_ignore_case(s, "L5"@) {
        Some(5)
    } else {
        None
    }
}

/// The index of the first lesson at or after `i` that sits at day `d`, period `p`.
pub open spec fn first_lesson_from(ls: Seq<Lesson>, d: usize, p: usize, i: int) -> Option<int>
    decreases ls.len() - i,
{
    if i < 0 || i >= ls.len() {
        None
    } else if ls[i].day_index == d && ls[i].period_index == p {
        Some(i)
    } else {
        first_lesson_from(ls, d, p, i + 1)
    }
}

/// The index of the first lesson that sits at day `d`, period `p`.
pub open spec fn first_lesson(ls: Seq<Lesson>, d: usize, p: usize) -> Option<int> {
    first_lesson_from(ls, d, p, 0)
}

/// What applying `o` to `weeks` comes to.
pub open spec fn outcome_of(weeks: Seq<WeekView>, o: Override) -> OverrideOutcome {
    if o.week == 0 || o.week > weeks.len() {
        OverrideOutcome::WeekOutOfRange
    } else if day_of(o.day@) is None {
        OverrideOutcome::UnknownDay
    } else if period_of(o.period@) is None {
        OverrideOutcome::UnknownPeriod
    } else if first_lesson(
        weeks[o.week - 1].lessons,
        day_of(o.day@).unwrap(),
        period_of(o.period@).unwrap(),
    ) is None {
        OverrideOutcome::NoLesson
    } else {
        OverrideOutcome::Applied
    }
}

/// The lesson `l` with each field that `o` gives replaced.
pub open spec fn patched_lesson(l: Lesson, o: Override) -> Lesson {
    Lesson {
        subject: if o.subject is Some { o.subject.unwrap() } else { l.subject },
        room: if o.room is Some { o.room.unwrap() } else { l.room },
        teacher: if o.teacher is Some { o.teacher.unwrap() } else { l.teacher },
        class_code: if o.class_code is Some { o.class_code.unwrap() } else { l.class_code },
        day_index: l.day_index,
        period_index: l.period_index,
    }
}

/// The weeks after applying one override: the first lesson at its day and period
/// in its week is patched; if there is none, or the override cannot be placed,
/// nothing changes.
pub open spec fn apply_one(weeks: Seq<WeekView>, o: Override) -> Seq<WeekView> {
    if outcome_of(weeks, o) == OverrideOutcome::Applied {
        let w = o.week - 1;
        let j = first_lesson(
            weeks[w].lessons,
            day_of(o.day@).unwrap(),
            period_of(o.period@).unwrap(),
        ).unwrap();
        weeks.update(
            w,
            WeekView {
                lessons: weeks[w].lessons.update(j, patched_lesson(weeks[w].lessons[j], o)),
                ..weeks[w]
            },
        )
    } else {
        weeks
    }
}

/// The weeks after applying the overrides in order.
pub open spec fn apply_all(weeks: Seq<WeekView>, os: Seq<Override>) -> Seq<WeekView>
    decreases os.len(),
{
    if os.len() == 0 {
        weeks
    } else {
        apply_one(apply_all(weeks, os.drop_last()), os.last())
    }
}

/// Compares `s` with `k` up to the case of ASCII letters.
fn eq_ignore_ascii_case(s: &str, k: &str) -> (r: bool)
    ensures
        r == eq_ignore_case(s@, k@),
{
    let n = s.unicode_len();
    if n != k.unicode_len() {
        return false;
    }
    let mut i: usize = 0;
    while i < n
        invariant
            n == s@.len(),
            n == k@.len(),
            i <= n,
            forall|j: int| 0 <= j < i ==> ascii_fold(s@[j]) == ascii_fold(k@[j]),
        decreases n - i,
    {
        if fold_char(s.get_char(i)) != fold_char(k.get_char(i)) {
            return false;
        }
        i = i + 1;
    }
    true
}

fn fold_char(c: char) -> (r: u32)
    ensures
        r == ascii_fold(c),
{
    if 'A' <= c && c <= 'Z' {
        c as u32 + 32
    } else {
        c as u32
    }
}

/// Reads a day name: Monday is 0, Friday is 4.
pub fn day_index(day: &str) -> (r: Option<usize>)
    ensures
        r == day_of(day@),
{
    if eq_ignore_ascii_case(day, "monday") || eq_ignore_ascii_case(day, "mon") {
        Some(0)
    } else if eq_ignore_ascii_case(day, "tuesday") || eq_ignore_ascii_case(day, "tue") {
        Some(1)
    } else if eq_ignore_ascii_case(day, "wednesday") || eq_ignore_ascii_case(day, "wed") {
        Some(2)
    } else if eq_ignore_ascii_case(day, "thursday") || eq_ignore_ascii_case(day, "thu") {
        Some(3)
    } else if eq_ignore_ascii_case(day, "friday") || eq_ignore_ascii_case(day, "fri") {
        Some(4)
    } else {
        None
    }
}

/// Reads a period name: PD is 0, L1 to L5 are 1 to 5.
pub fn period_index(period: &str) -> (r: Option<usize>)
    ensures
        r == period_of(period@),
{
    if eq_ignore_ascii_case(period, "PD") {
        Some(0)
    } else if eq_ignore_ascii_case(period, "L1") {
        Some(1)
    } else if eq_ignore_ascii_case(period, "L2") {
        Some(2)
    } else if eq_ignore_ascii_case(period, "L3") {
        Some(3)
    } else if eq_ignore_ascii_case(period, "L4") {
        Some(4)
    } else if eq_ignore_ascii_case(period, "L5") {
        Some(5)
    } else {
        None
    }
}

fn find_lesson(ls: &Vec<Lesson>, d: usize, p: usize) -> (r: Option<usize>)
    ensures
        r matches Some(j) ==> first_lesson(ls@, d, p) == Some(j as int) && j < ls@.len(),
        r is None ==> first_lesson(ls@, d, p) is None,
{
    let mut i: usize = 0;
    while i < ls.len()
        invariant
            i <= ls@.len(),
            first_lesson(ls@, d, p) == first_lesson_from(ls@, d, p, i as int),
        decreases ls@.len() - i,
    {
        if ls[i].day_index == d && ls[i].period_index == p {
            return Some(i);
        }
        i = i + 1;
    }
    None
}

fn patch_lesson(l: &mut Lesson, o: &Override)
    ensures
        *final(l) == patched_lesson(*old(l), *o),
{
    if let Some(s) = &o.subject {
        l.subject = s.clone();
    }
    if let Some(s) = &o.room {
        l.room = s.clone();
    }
    if let Some(s) = &o.teacher {
        l.teacher = s.clone();
    }
    if let Some(s) = &o.class_code {
        l.class_code = s.clone();
    }
}

/// Applies one override to `weeks` and tells what became of it.
pub fn apply_override(weeks: &mut Vec<Week>, o: &Override) -> (r: OverrideOutcome)
    ensures
        weeks_view(final(weeks)@) == apply_one(weeks_view(old(weeks)@), *o),
        r == outcome_of(weeks_view(old(weeks)@), *o),
{
    let ghost wv = weeks_view(weeks@);
    if o.week == 0 || o.week > weeks.len() {
        return OverrideOutcome::WeekOutOfRange;
    }
    let d = match day_index(o.day.as_str()) {
        Some(d) => d,
        None => {
            return OverrideOutcome::UnknownDay;
        },
    };
    let p = match period_index(o.period.as_str()) {
        Some(p) => p,
        None => {
            return OverrideOutcome::UnknownPeriod;
        },
    };
    let w = o.week - 1;
    assert(wv[w as int].lessons == weeks@[w as int].lessons@);
    let j = match find_lesson(&weeks[w].lessons, d, p) {
        Some(j) => j,
        None => {
            return OverrideOutcome::NoLesson;
        },
    };
    let ghost old_weeks = weeks@;
    let mut week = weeks.remove(w);
    let mut lesson = week.lessons.remove(j);
    let ghost old_lessons = week.lessons@;
    patch_lesson(&mut lesson, o);
    week.lessons.insert(j, lesson);
    weeks.insert(w, week);
    proof {
        assert(weeks@ =~= old_weeks.update(w as int, week));
        assert(week.lessons@ =~= old_weeks[w as int].lessons@.update(
            j as int,
            patched_lesson(old_weeks[w as int].lessons@[j as int], *o),
        ));
        assert(weeks_view(weeks@) =~= apply_one(wv, *o));
    }
    OverrideOutcome::Applied
}

/// The configuration: style rules and schedule corrections.
#[derive(Debug)]
pub struct Config {
    pub mappings: Vec<Mapping>,
    pub overrides: Vec<Override>,
}

impl Config {
    /// Finds the rule with the longest prefix of `room_code`, the earliest on a tie.
    pub fn get_style_for_room(&self, room_code: &str) -> (r: Option<&Mapping>)
        ensures
            r is None <==> forall|i: int|
                0 <= i < self.mappings@.len() ==> !rule_matches(self.mappings@, i, room_code@),
            r matches Some(m) ==> exists|i: int|
                is_best_rule(self.mappings@, i, room_code@) && *m == self.mappings@[i],
    {
        let ghost ms = self.mappings@;
        let mut best: Option<usize> = None;
        let mut best_len: usize = 0;
        let mut i: usize = 0;
        while i < self.mappings.len()
            invariant
                ms == self.mappings@,
                i <= ms.len(),
                best is None <==> forall|j: int| 0 <= j < i ==> !rule_matches(ms, j, room_code@),
                best matches Some(b) ==> {
                    &&& b < i
                    &&& best_len == prefix_len(ms, b as int)
                    &&& rule_matches(ms, b as int, room_code@)
                    &&& forall|j: int| 0 <= j < i && rule_matches(ms, j, room_code@)
                        ==> prefix_len(ms, j) <= best_len
                    &&& forall|j: int| 0 <= j < b && rule_matches(ms, j, room_code@)
                        ==> prefix_len(ms, j) < best_len
                },
            decreases ms.len() - i,
        {
            let p = self.mappings[i].prefix.as_str();
            let m = starts_with(room_code, p);
            assert(m == rule_matches(ms, i as int, room_code@));
            if m {
                let len = p.as_bytes().len();
                if best.is_none() || len > best_len {
                    best = Some(i);
                    best_len = len;
                }
            }
            i = i + 1;
        }
        match best {
            Some(b) => {
                assert(is_best_rule(ms, b as int, room_code@));
                Some(&self.mappings[b])
            },
            None => None,
        }
    }

    /// Applies every override in table order, each to the weeks that the earlier ones
    /// left, and tells what became of each.
    pub fn apply_overrides(&self, weeks: &mut Vec<Week>) -> (r: Vec<OverrideOutcome>)
        ensures
            weeks_view(final(weeks)@) == apply_all(weeks_view(old(weeks)@), self.overrides@),
            r@.len() == self.overrides@.len(),
            forall|i: int|
                0 <= i < r@.len() ==> r@[i] == outcome_of(
                    apply_all(weeks_view(old(weeks)@), self.overrides@.take(i)),
                    self.overrides@[i],
                ),
    {
        let ghost start = weeks_view(weeks@);
        let ghost os = self.overrides@;
        let mut r: Vec<OverrideOutcome> = Vec::new();
        let mut i: usize = 0;
        while i < self.overrides.len()
            invariant
                os == self.overrides@,
                i <= os.len(),
                r@.len() == i,
                weeks_view(weeks@) == apply_all(start, os.take(i as int)),
                forall|k: int|
                    0 <= k < i ==> r@[k] == outcome_of(apply_all(start, os.take(k)), os[k]),
            decreases os.len() - i,
        {
            let outcome = apply_override(weeks, &self.overrides[i]);
            r.push(outcome);
            assert(os.take(i + 1).drop_last() =~= os.take(i as int));
            i = i + 1;
        }
        assert(os.take(os.len() as int) =~= os);
        r
    }
}

/// A lookup selects at most one rule: two rules that both meet the selection
/// conditions for a room code are the same rule.
pub proof fn lemma_best_rule_unique(ms: Seq<Mapping>, room: Seq<char>, i: int, j: int)
    requires
        is_best_rule(ms, i, room),
        is_best_rule(ms, j, room),
    ensures
        i == j,
{
}

proof fn lemma_first_lesson_from(ls: Seq<Lesson>, d: usize, p: usize, i: int)
    requires
        0 <= i,
    ensures
        first_lesson_from(ls, d, p, i) matches Some(j) ==> {
            &&& i <= j < ls.len()
            &&& ls[j].day_index == d && ls[j].period_index == p
        },
        first_lesson_from(ls, d, p, i) is None <==> forall|k: int|
            i <= k < ls.len() ==> !(ls[k].day_index == d && ls[k].period_index == p),
    decreases ls.len() - i,
{
    if i < ls.len() {
        lemma_first_lesson_from(ls, d, p, i + 1);
    }
}

proof fn lemma_first_lesson_update(ls: Seq<Lesson>, d: usize, p: usize, i: int, j: int, x: Lesson)
    requires
        0 <= i,
        0 <= j < ls.len(),
        x.day_index == ls[j].day_index,
        x.period_index == ls[j].period_index,
    ensures
        first_lesson_from(ls.update(j, x), d, p, i) == first_lesson_from(ls, d, p, i),
    decreases ls.len() - i,
{
    if i < ls.len() {
        lemma_first_lesson_update(ls, d, p, i + 1, j, x);
    }
}

/// Applying the same override twice leaves the weeks as applying it once: fields
/// are assigned, not accumulated, and the lesson it targets stays its target.
pub proof fn lemma_override_idempotent(weeks: Seq<WeekView>, o: Override)
    ensures
        apply_one(apply_one(weeks, o), o) == apply_one(weeks, o),
        apply_all(weeks, seq![o, o]) == apply_all(weeks, seq![o]),
{
    let once = apply_one(weeks, o);
    if outcome_of(weeks, o) == OverrideOutcome::Applied {
        let w = o.week - 1;
        let d = day_of(o.day@).unwrap();
        let p = period_of(o.period@).unwrap();
        let ls = weeks[w].lessons;
        let j = first_lesson(ls, d, p).unwrap();
        lemma_first_lesson_from(ls, d, p, 0);
        let x = patched_lesson(ls[j], o);
        lemma_first_lesson_update(ls, d, p, 0, j, x);
        assert(once[w].lessons == ls.update(j, x));
        assert(first_lesson(once[w].lessons, d, p) == Some(j));
        assert(patched_lesson(x, o) == x);
        assert(once[w].lessons.update(j, x) =~= once[w].lessons);
        assert(once.update(w, once[w]) =~= once);
    }
    assert(seq![o, o].drop_last() =~= seq![o]);
    assert(seq![o].drop_last() =~= Seq::<Override>::empty());
    assert(apply_all(weeks, Seq::<Override>::empty()) == weeks);
    assert(apply_all(weeks, seq![o]) == apply_one(weeks, o));
    assert(apply_all(weeks, seq![o, o]) == apply_one(apply_all(weeks, seq![o]), o));
}

/// An override whose week number is 0 or past the last week changes nothing and is
/// reported as out of range.
pub proof fn lemma_override_week_out_of_range(weeks: Seq<WeekView>, o: Override)
    requires
        o.week == 0 || o.week > weeks.len(),
    ensures
        apply_one(weeks, o) == weeks,
        outcome_of(weeks, o) == OverrideOutcome::WeekOutOfRange,
{
}

/// An override whose day and period match no lesson of its week changes nothing and
/// is reported as finding no lesson.
pub proof fn lemma_override_no_lesson(weeks: Seq<WeekView>, o: Override)
    requires
        1 <= o.week <= weeks.len(),
        day_of(o.day@) is Some,
        period_of(o.period@) is Some,
        forall|k: int|
            0 <= k < weeks[o.week - 1].lessons.len() ==> !(
            #[trigger] weeks[o.week - 1].lessons[k].day_index == day_of(o.day@).unwrap()
                && weeks[o.week - 1].lessons[k].period_index == period_of(o.period@).unwrap()),
    ensures
        apply_one(weeks, o) == weeks,
        outcome_of(weeks, o) == OverrideOutcome::NoLesson,
{
    lemma_first_lesson_from(
        weeks[o.week - 1].lessons,
        day_of(o.day@).unwrap(),
        period_of(o.period@).unwrap(),
        0,
    );
}

} // verus!
