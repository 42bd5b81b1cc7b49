//! The workspace, its courses and their assignments, and the course roster.

use std::collections::HashMap;
use vstd::prelude::*;
use vstd::utf8::is_char_boundary;
use vstd::string::StringSliceAdditionalSpecFns;
use crate::download::User;
use crate::paths::{join_path, join_spec, relative_first, relative_spec, components_spec, Relative};
use crate::settings::{Settings, position_of, unique_names};
use crate::settings;
use crate::text::{trim, trim_spec, chars_of, is_ascii_digit, is_ascii_upper, ascii_upper, ascii_digit};

verus! {

broadcast use vstd::std_specs::hash::group_hash_axioms;

/// A Canvas user id.
#[derive(Debug, Clone, Copy, PartialEq, Eq, Hash, Structural)]
pub struct UserId(pub u32);

/// The directory that holds the courses, and the Canvas API token.
pub struct Workspace {
    pub token: String,
    pub root: String,
}

/// A course of the workspace: its directory and its settings, and the
/// roster once it has been fetched.
pub struct Course<'a> {
    pub workspace: &'a Workspace,
    pub path: String,
    pub settings: Settings,
    pub user_data: RosterCache,
}

/// The roster of a course once it has been fetched. Only `Course` fills it,
/// and only once.
pub struct RosterCache {
    users: Option<Users>,
}

impl View for RosterCache {
    type V = Option<Map<u32, User>>;

    closed spec fn view(&self) -> Option<Map<u32, User>> {
        match self.users {
            Some(u) => Some(u@),
            None => None,
        }
    }
}

/// An assignment of a course: its directory, its Canvas id and its settings.
pub struct Assignment<'a> {
    pub course: &'a Course<'a>,
    pub path: String,
    pub id: u32,
    pub settings: &'a settings::Assignment,
}

/// The users of a course section, by id.
pub struct Users {
    users: HashMap<u32, User>,
}

/// Why a course or an assignment could not be found.
#[derive(Debug, PartialEq, Eq)]
pub enum WorkspaceError {
    NotInWorkspace,
    AtWorkspaceRoot,
    NotInCourse,
    AtCourseRoot,
    InvalidCourseName(String),
    AssignmentNotFound(String),
}

pub open spec fn error_message(e: WorkspaceError) -> Seq<char> {
    match e {
        WorkspaceError::NotInWorkspace => "current directory is not inside the workspace"@,
        WorkspaceError::AtWorkspaceRoot => "current directory is the workspace root, not a course"@,
        WorkspaceError::NotInCourse => "current directory is not inside this course"@,
        WorkspaceError::AtCourseRoot => "current directory is the course root, not an assignment"@,
        WorkspaceError::InvalidCourseName(name) => "invalid course name '"@ + name@
            + "': expected format like 'CSCI-101'"@,
        WorkspaceError::AssignmentNotFound(name) => "assignment '"@ + name@
            + "' not found in settings.toml"@,
    }
}

impl WorkspaceError {
    /// The text shown to the user.
    pub fn message(&self) -> (r: String)
        ensures
            r@ == error_message(*self),
    {
        match self {
            WorkspaceError::NotInWorkspace => String::from_str(
                "current directory is not inside the workspace",
            ),
            WorkspaceError::AtWorkspaceRoot => String::from_str(
                "current directory is the workspace root, not a course",
            ),
            WorkspaceError::NotInCourse => String::from_str(
                "current directory is not inside this course",
            ),
            WorkspaceError::AtCourseRoot => String::from_str(
                "current directory is the course root, not an assignment",
            ),
            WorkspaceError::InvalidCourseName(name) => {
                let mut r = String::from_str("invalid course name '");
                r.append(name.as_str());
                r.append("': expected format like 'CSCI-101'");
                r
            },
            WorkspaceError::AssignmentNotFound(name) => {
                let mut r = String::from_str("assignment '");
                r.append(name.as_str());
                r.append("' not found in settings.toml");
                r
            },
        }
    }
}

/// A course name: four ASCII capital letters, `-`, three ASCII digits.
pub open spec fn course_name_spec(s: Seq<char>) -> bool {
    &&& s.len() == 8
    &&& forall|i: int| 0 <= i < 4 ==> #[trigger] ascii_upper(s[i])
    &&& s[4] == '-'
    &&& forall|i: int| 5 <= i < 8 ==> #[trigger] ascii_digit(s[i])
}

/// The course-name check slices the name at its fourth byte once it has
/// eight bytes; that byte must then start a character.
pub open spec fn course_name_sliceable(name: &str) -> bool {
    name.spec_bytes().len() == 8 ==> is_char_boundary(name.spec_bytes(), 4)
}

/// Checks that `name` has the form of a course name such as `CSCI-101`.
pub fn validate_course_name(name: &str) -> (r: Result<(), WorkspaceError>)
    requires
        course_name_sliceable(name),
    ensures
        r is Ok <==> course_name_spec(name@),
        r matches Err(e) ==> e matches WorkspaceError::InvalidCourseName(n) && n@ == name@,
{
    let v = chars_of(name);
    let mut ok = v.len() == 8;
    if ok {
        for i in 0..4
            invariant
                v@ == name@,
                v@.len() == 8,
                ok == forall|j: int| 0 <= j < i ==> #[trigger] ascii_upper(v@[j]),
        {
            ok = ok && is_ascii_upper(v[i]);
        }
        ok = ok && v[4] == '-';
        for i in 5..8
            invariant
                v@ == name@,
                v@.len() == 8,
                ok == ((forall|j: int| 0 <= j < 4 ==> #[trigger] ascii_upper(v@[j])) && v@[4] == '-'
                    && forall|j: int| 5 <= j < i ==> #[trigger] ascii_digit(v@[j])),
        {
            ok = ok && is_ascii_digit(v[i]);
        }
    }
    if ok {
        Ok(())
    } else {
        Err(WorkspaceError::InvalidCourseName(name.to_owned()))
    }
}


/// The roster made from `users` in order: a later user with an id already
/// seen replaces the earlier one.
pub open spec fn users_map(users: Seq<User>) -> Map<u32, User>
    decreases users.len(),
{
    if users.len() == 0 {
        Map::empty()
    } else {
        users_map(users.drop_last()).insert(users.last().id.0, users.last())
    }
}

/// The roster holds a user exactly when the list has one with that id, and
/// then it is the last such user of the list.
pub proof fn lemma_users_map_last(users: Seq<User>, i: int)
    requires
        0 <= i < users.len(),
        forall|j: int| i < j < users.len() ==> (#[trigger] users[j]).id.0 != users[i].id.0,
    ensures
        users_map(users).contains_key(users[i].id.0),
        users_map(users)[users[i].id.0] == users[i],
    decreases users.len(),
{
    if i < users.len() - 1 {
        let prev = users.drop_last();
        assert forall|j: int| i < j < prev.len() implies (#[trigger] prev[j]).id.0 != prev[i].id.0 by {
            assert(prev[j] == users[j]);
        }
        lemma_users_map_last(prev, i);
        assert(users[users.len() - 1].id.0 != users[i].id.0);
    }
}

/// A roster holds no user whose id none of the listed users has.
pub proof fn lemma_users_map_absent(users: Seq<User>, id: u32)
    requires
        forall|j: int| 0 <= j < users.len() ==> (#[trigger] users[j]).id.0 != id,
    ensures
        !users_map(users).contains_key(id),
    decreases users.len(),
{
    if users.len() > 0 {
        let prev = users.drop_last();
        assert forall|j: int| 0 <= j < prev.len() implies (#[trigger] prev[j]).id.0 != id by {
            assert(prev[j] == users[j]);
        }
        lemma_users_map_absent(prev, id);
        assert(users[users.len() - 1].id.0 != id);
    }
}

impl View for Users {
    type V = Map<u32, User>;

    closed spec fn view(&self) -> Map<u32, User> {
        self.users@
    }
}

impl Users {
    /// The roster of `users`, keyed by their ids.
    pub fn from_vec(users: Vec<User>) -> (r: Users)
        ensures
            r@ == users_map(users@),
    {
        let ghost all = users@;
        let mut m: HashMap<u32, User> = HashMap::new();
        let mut rest = users;
        let ghost mut taken: Seq<User> = seq![];
        while rest.len() > 0
            invariant
                taken + rest@ == all,
                m@ == users_map(taken),
            decreases rest.len(),
        {
            let u = rest.remove(0);
            proof {
                assert(taken.push(u).drop_last() =~= taken);
                assert(taken.push(u) + rest@ =~= all);
            }
            let id = u.id.0;
            m.insert(id, u);
            proof {
                taken = taken.push(u);
            }
        }
        assert(taken =~= all);
        Users { users: m }
    }

    /// The user with id `id`, if the roster has one.
    pub fn get(&self, id: UserId) -> (r: Option<&User>)
        ensures
            match r {
                Some(u) => self@.contains_key(id.0) && *u == self@[id.0],
                None => !self@.contains_key(id.0),
            },
    {
        self.users.get(&id.0)
    }
}

impl Workspace {
    /// The workspace rooted at `root`, with the token read from `token.txt`
    /// (surrounding white space removed).
    pub fn new(root: String, token_text: &str) -> (r: Workspace)
        ensures
            r.root == root,
            r.token@ == trim_spec(token_text@),
    {
        Workspace { root, token: trim(token_text) }
    }

    /// The name of the course whose directory holds `cwd`: the first
    /// component of `cwd` below the workspace root.
    pub fn current_course_name(&self, cwd: &str) -> (r: Result<String, WorkspaceError>)
        ensures
            match relative_spec(components_spec(cwd@), components_spec(self.root@)) {
                None => r == Err::<String, WorkspaceError>(WorkspaceError::NotInWorkspace),
                Some(None) => r == Err::<String, WorkspaceError>(WorkspaceError::AtWorkspaceRoot),
                Some(Some(name)) => r matches Ok(n) && n@ == name,
            },
    {
        match relative_first(cwd, self.root.as_str()) {
            Relative::Outside => Err(WorkspaceError::NotInWorkspace),
            Relative::AtBase => Err(WorkspaceError::AtWorkspaceRoot),
            Relative::Below(name) => Ok(name),
        }
    }

    /// The course `name`, whose `settings.toml` holds `settings`; its
    /// directory is `name` under the workspace root.
    pub fn course(&self, name: &str, settings: Settings) -> (r: Result<Course<'_>, WorkspaceError>)
        requires
            course_name_sliceable(name),
        ensures
            course_name_spec(name@) ==> (r matches Ok(c) && c.workspace == self && c.path@
                == join_spec(self.root@, name@) && c.settings == settings && c.cached_users()
                is None),
            !course_name_spec(name@) ==> (r matches Err(e) && e matches WorkspaceError::InvalidCourseName(n)
                && n@ == name@),
    {
        match validate_course_name(name) {
            Err(e) => Err(e),
            Ok(()) => {
                let path = join_path(self.root.as_str(), name);
                Ok(Course { workspace: self, path, settings, user_data: RosterCache { users: None } })
            },
        }
    }
}

impl<'a> Course<'a> {
    /// The roster, once fetched.
    pub open spec fn cached_users(&self) -> Option<Map<u32, User>> {
        self.user_data@
    }

    /// The roster, if it has been fetched.
    pub fn users(&self) -> (r: Option<&Users>)
        ensures
            match r {
                Some(u) => self.cached_users() == Some(u@),
                None => self.cached_users() is None,
            },
    {
        match &self.user_data.users {
            Some(u) => Some(u),
            None => None,
        }
    }

    /// Keeps `users` as the roster, unless one is kept already: the first
    /// roster stays.
    pub fn init_users(&mut self, users: Users)
        ensures
            final(self).cached_users() == (match old(self).cached_users() {
                Some(m) => Some(m),
                None => Some(users@),
            }),
            final(self).workspace == old(self).workspace,
            final(self).path == old(self).path,
            final(self).settings == old(self).settings,
    {
        if self.user_data.users.is_none() {
            self.user_data = RosterCache { users: Some(users) };
        }
    }

    /// The assignment `name` of this course; its directory is `name` under
    /// the course directory.
    pub fn assignment(&self, name: &str) -> (r: Result<Assignment<'_>, WorkspaceError>)
        requires
            unique_names(self.settings.assignment@),
        ensures
            match position_of(self.settings.assignment@, name@) {
                Some(i) => r matches Ok(a) && a.course == self && a.path@ == join_spec(
                    self.path@,
                    name@,
                ) && a.id == self.settings.assignment@[i].1.id && *a.settings
                    == self.settings.assignment@[i].1,
                None => r matches Err(e) && e matches WorkspaceError::AssignmentNotFound(n) && n@
                    == name@,
            },
    {
        match self.settings.get(name) {
            None => Err(WorkspaceError::AssignmentNotFound(name.to_owned())),
            Some(settings) => {
                let path = join_path(self.path.as_str(), name);
                Ok(Assignment { course: self, path, id: settings.id, settings })
            },
        }
    }

    /// The assignment whose directory holds `cwd`: the first component of
    /// `cwd` below the course directory.
    pub fn current_assignment(&self, cwd: &str) -> (r: Result<Assignment<'_>, WorkspaceError>)
        requires
            unique_names(self.settings.assignment@),
        ensures
            match relative_spec(components_spec(cwd@), components_spec(self.path@)) {
                None => r == Err::<Assignment<'_>, WorkspaceError>(WorkspaceError::NotInCourse),
                Some(None) => r == Err::<Assignment<'_>, WorkspaceError>(WorkspaceError::AtCourseRoot),
                Some(Some(name)) => match position_of(self.settings.assignment@, name) {
                    Some(i) => r matches Ok(a) && a.course == self && a.path@ == join_spec(
                        self.path@,
                        name,
                    ) && a.id == self.settings.assignment@[i].1.id && *a.settings
                        == self.settings.assignment@[i].1,
                    None => r matches Err(e) && e matches WorkspaceError::AssignmentNotFound(n)
                        && n@ == name,
                },
            },
    {
        match relative_first(cwd, self.path.as_str()) {
            Relative::Outside => Err(WorkspaceError::NotInCourse),
            Relative::AtBase => Err(WorkspaceError::AtCourseRoot),
            Relative::Below(name) => self.assignment(name.as_str()),
        }
    }
}

} // verus!
