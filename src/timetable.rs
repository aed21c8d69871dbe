use vstd::prelude::*;

verus! {

/// One lesson of a parsed timetable, placed by day and period.
#[derive(Clone, Debug)]
pub struct Lesson {
    pub subject: String,
    pub room: String,
    pub teacher: String,
    pub class_code: String,
    /// Day of the week, Monday being 0.
    pub day_index: usize,
    /// Period of the day: 0 for PD, then 1 to 5 for L1 to L5.
    pub period_index: usize,
}

/// One week of lessons together with its heading details.
#[derive(Debug)]
pub struct Week {
    pub lessons: Vec<Lesson>,
    pub week_name: String,
    pub student_name: Option<String>,
    pub form: Option<String>,
}

/// Mathematical model of a week: its lessons as a sequence.
pub struct WeekView {
    pub lessons: Seq<Lesson>,
    pub week_name: String,
    pub student_name: Option<String>,
    pub form: Option<String>,
}

impl View for Week {
    type V = WeekView;

    open spec fn view(&self) -> WeekView {
        WeekView {
            lessons: self.lessons@,
            week_name: self.week_name,
            student_name: self.student_name,
            form: self.form,
        }
    }
}

/// The model of a sequence of weeks.
pub open spec fn weeks_view(weeks: Seq<Week>) -> Seq<WeekView> {
    weeks.map_values(|w: Week| w@)
}

} // verus!
