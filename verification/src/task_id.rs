//! Task identifiers of the form `project:task`.
use vstd::prelude::*;

use crate::strings::{chars_of, find_char_from, first_index_of, substring};

verus! {

/// The identity of a task: the project it belongs to and its name there.
#[derive(Debug, PartialEq, Eq, Hash)]
pub struct TaskId {
    project: String,
    task: String,
}

/// The text of an id: `project:task`.
pub open spec fn id_text(id: (Seq<char>, Seq<char>)) -> Seq<char> {
    id.0 + seq![':'] + id.1
}

/// How a specifier `project:task` splits: at its first `:`, with both halves
/// non-empty; `None` for any other text.
pub open spec fn parse_id(s: Seq<char>) -> Option<(Seq<char>, Seq<char>)> {
    let i = first_index_of(s, ':');
    if 0 < i && i + 1 < s.len() {
        Some((s.take(i), s.skip(i + 1)))
    } else {
        None
    }
}

/// Whether a text names a task of a given project (`project:task`) rather
/// than a bare task name.
pub open spec fn has_colon(s: Seq<char>) -> bool {
    first_index_of(s, ':') < s.len()
}

impl View for TaskId {
    type V = (Seq<char>, Seq<char>);

    closed spec fn view(&self) -> (Seq<char>, Seq<char>) {
        (self.project@, self.task@)
    }
}

impl Clone for TaskId {
    fn clone(&self) -> (r: Self)
        ensures
            r == *self,
    {
        TaskId { project: self.project.clone(), task: self.task.clone() }
    }
}

impl TaskId {
    /// The id of task `task` in project `project`.
    pub fn new(project: &str, task: &str) -> (r: TaskId)
        ensures
            r@ == (project@, task@),
    {
        TaskId { project: String::from_str(project), task: String::from_str(task) }
    }

    /// The id made of two owned names.
    pub fn from_parts(project: String, task: String) -> (r: TaskId)
        ensures
            r@ == (project@, task@),
    {
        TaskId { project, task }
    }

    /// Parses `project:task`, splitting at the first `:`; both halves must be
    /// non-empty.
    pub fn parse(spec: &str) -> (r: Option<TaskId>)
        ensures
            r matches Some(id) ==> parse_id(spec@) == Some(id@),
            r is None ==> parse_id(spec@) is None,
    {
        let v = chars_of(spec);
        let i = find_char_from(&v, ':', 0);
        proof {
            assert(v@.subrange(0, v@.len() as int) =~= v@);
        }
        if 0 < i && i < v.len() && i + 1 < v.len() {
            let project = substring(spec, 0, i);
            let task = substring(spec, i + 1, v.len());
            proof {
                assert(spec@.subrange(0, i as int) =~= spec@.take(i as int));
                assert(spec@.subrange(i + 1, spec@.len() as int) =~= spec@.skip(i + 1));
            }
            Some(TaskId { project, task })
        } else {
            None
        }
    }

    /// The text `project:task`.
    pub fn to_string(&self) -> (s: String)
        ensures
            s@ == id_text(self@),
    {
        let s = self.project.clone();
        let s = s.concat(":");
        let s = s.concat(self.task.as_str());
        proof {
            reveal_strlit(":");
            assert(s@ =~= id_text(self@));
        }
        s
    }

    /// The name of the task's project.
    pub fn project_name(&self) -> (r: &str)
        ensures
            r@ == self@.0,
    {
        self.project.as_str()
    }

    /// The task's name within its project.
    pub fn task_name(&self) -> (r: &str)
        ensures
            r@ == self@.1,
    {
        self.task.as_str()
    }

    /// Whether this is the id of task `task` in project `project`.
    pub fn is_named(&self, project: &String, task: &String) -> (r: bool)
        ensures
            r == (self@ == (project@, task@)),
    {
        self.project == *project && self.task == *task
    }

    /// Whether the task's name within its project is `name`.
    pub fn has_task_name(&self, name: &String) -> (r: bool)
        ensures
            r == (self@.1 == name@),
    {
        self.task == *name
    }

    /// Whether the task belongs to project `project`.
    pub fn has_project_name(&self, project: &String) -> (r: bool)
        ensures
            r == (self@.0 == project@),
    {
        self.project == *project
    }

    /// Whether two ids name the same task.
    pub fn same(&self, other: &TaskId) -> (r: bool)
        ensures
            r == (self@ == other@),
    {
        self.project == other.project && self.task == other.task
    }
}

/// Whether a text names a single task (`project:task`) rather than a bare
/// task name.
pub fn contains_colon(s: &str) -> (r: bool)
    ensures
        r == has_colon(s@),
{
    let v = chars_of(s);
    let i = find_char_from(&v, ':', 0);
    proof {
        assert(v@.subrange(0, v@.len() as int) =~= v@);
    }
    i < v.len()
}


/// Law: parsing the text of an id gives the id back, when its project name
/// is not empty and holds no `:` and its task name is not empty; the text
/// of a parsed specifier is the specifier itself.
pub proof fn law_parse_inverts_text(id: (Seq<char>, Seq<char>), spec: Seq<char>)
    ensures
        id.0.len() > 0 && id.1.len() > 0 && !id.0.contains(':') ==> parse_id(id_text(id)) == Some(id),
        parse_id(spec) matches Some(p) ==> id_text(p) == spec,
{
    let t = id_text(id);
    if id.0.len() > 0 && id.1.len() > 0 && !id.0.contains(':') {
        assert forall|j: int| 0 <= j < id.0.len() implies t[j] != ':' by {
            assert(t[j] == id.0[j]);
            if t[j] == ':' {
                assert(id.0.contains(':'));
            }
        }
        assert(t[id.0.len() as int] == ':');
        crate::strings::lemma_first_index_of_unique(t, ':', id.0.len() as int);
        assert(t.take(id.0.len() as int) =~= id.0);
        assert(t.skip(id.0.len() as int + 1) =~= id.1);
    }
    if parse_id(spec) is Some {
        let i = first_index_of(spec, ':');
        crate::strings::lemma_first_index_of(spec, ':');
        assert(spec =~= spec.take(i) + seq![':'] + spec.skip(i + 1));
    }
}

} // verus!
