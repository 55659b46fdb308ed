use vstd::prelude::*;
use crate::options::FileStats;

verus! {

/// The template text for each hook; rendering happens in the front end.
pub struct TemplateData {
    pub post: String,
    pub start: String,
    pub prog: String,
    pub end: String,
}

/// Pairs a record with the template that renders it.
fn with_template(stats: FileStats, template: &String) -> (r: (String, FileStats))
    ensures
        r.0@ == template@,
        r.1 == stats,
{
    (template.clone(), stats)
}

/// The record and the template of the `post` hook.
pub fn render_template_post(stats: FileStats, data: &TemplateData) -> (r: (String, FileStats))
    ensures
        r.0@ == data.post@,
        r.1 == stats,
{
    with_template(stats, &data.post)
}

/// The record and the template of the `start` hook.
pub fn render_template_start(stats: FileStats, data: &TemplateData) -> (r: (String, FileStats))
    ensures
        r.0@ == data.start@,
        r.1 == stats,
{
    with_template(stats, &data.start)
}

/// The record and the template of the `prog` hook.
pub fn render_template_prog(stats: FileStats, data: &TemplateData) -> (r: (String, FileStats))
    ensures
        r.0@ == data.prog@,
        r.1 == stats,
{
    with_template(stats, &data.prog)
}

/// The record and the template of the `end` hook.
pub fn render_template_end(stats: FileStats, data: &TemplateData) -> (r: (String, FileStats))
    ensures
        r.0@ == data.end@,
        r.1 == stats,
{
    with_template(stats, &data.end)
}

} // verus!
