//! Administrator sessions: an explicit token store (issue, validate, revoke),
//! bearer-token authorisation, and the role rules of administrator accounts.
use vstd::prelude::*;

verus! {

/// The role word of a full administrator.
pub open spec fn admin_role() -> Seq<char> {
    seq!['a', 'd', 'm', 'i', 'n']
}

/// The role word of a department administrator.
pub open spec fn department_role() -> Seq<char> {
    seq!['d', 'e', 'p', 'a', 'r', 't', 'm', 'e', 'n', 't']
}

/// The scheme prefix of an `Authorization` header that carries a token.
pub open spec fn bearer_prefix() -> Seq<char> {
    seq!['B', 'e', 'a', 'r', 'e', 'r', ' ']
}

/// The token that an `Authorization` header carries, if it has the bearer form.
pub open spec fn bearer_token_of(header: Seq<char>) -> Option<Seq<char>> {
    if header.len() >= 7 && header.take(7) == bearer_prefix() {
        Some(header.skip(7))
    } else {
        None
    }
}

/// Whether two strings hold the same characters.
fn same_text(a: &str, b: &str) -> (r: bool)
    ensures
        r == (a@ == b@),
{
    let n = a.unicode_len();
    if n != b.unicode_len() {
        return false;
    }
    let mut i: usize = 0;
    while i < n
        invariant
            i <= n,
            n == a@.len(),
            n == b@.len(),
            forall|k: int| 0 <= k < i ==> a@[k] == b@[k],
        decreases n - i,
    {
        if a.get_char(i) != b.get_char(i) {
            return false;
        }
        i = i + 1;
    }
    assert(a@ =~= b@);
    true
}

/// The identity of a logged-in administrator.
pub struct AdminSession {
    pub user_id: i32,
    pub username: String,
    pub role: String,
    pub department: Option<i32>,
}

impl AdminSession {
    /// A copy of this session.
    pub fn duplicate(&self) -> (r: AdminSession)
        ensures
            r == *self,
    {
        AdminSession {
            user_id: self.user_id,
            username: self.username.clone(),
            role: self.role.clone(),
            department: self.department,
        }
    }

    /// Whether this session belongs to a department administrator.
    pub fn is_department_admin(&self) -> (r: bool)
        ensures
            r == (self.role@ == department_role()),
    {
        let w = "department";
        proof {
            reveal_strlit("department");
            assert(w@ =~= department_role());
        }
        same_text(self.role.as_str(), w)
    }

    /// Whether this session may delete administrator account `id`: only a
    /// full administrator, and never their own account.
    pub fn may_delete_account(&self, id: i32) -> (r: bool)
        ensures
            r == (self.role@ == admin_role() && self.user_id != id),
    {
        self.is_admin() && self.user_id != id
    }

    /// Whether this session may see the records of a user in department
    /// `dept`: a department administrator only in their own department.
    pub fn may_view_department(&self, dept: i32) -> (r: bool)
        ensures
            r == (self.role@ != department_role() || self.department == Some(dept)),
    {
        if self.is_department_admin() {
            match self.department {
                Some(d) => d == dept,
                None => false,
            }
        } else {
            true
        }
    }

    /// The department that the statistics and exports of this session are
    /// limited to: none for a full administrator, else the session's own
    /// department (0 when it has none).
    pub fn department_scope(&self) -> (r: Option<i32>)
        ensures
            self.role@ == admin_role() ==> r.is_none(),
            self.role@ != admin_role() ==> r == Some(
                match self.department {
                    Some(d) => d,
                    None => 0i32,
                },
            ),
    {
        if self.is_admin() {
            None
        } else {
            match self.department {
                Some(d) => Some(d),
                None => Some(0),
            }
        }
    }

    /// The department filter of a filtered statistics request: a department
    /// administrator is held to their own department, anyone else gets the
    /// department they asked for.
    pub fn department_filter(&self, requested: Option<i32>) -> (r: Option<i32>)
        ensures
            self.role@ == department_role() ==> r == self.department,
            self.role@ != department_role() ==> r == requested,
    {
        if self.is_department_admin() {
            self.department
        } else {
            requested
        }
    }

    /// Whether this session belongs to a full administrator.
    pub fn is_admin(&self) -> (r: bool)
        ensures
            r == (self.role@ == admin_role()),
    {
        let w = "admin";
        proof {
            reveal_strlit("admin");
            assert(w@ =~= admin_role());
        }
        same_text(self.role.as_str(), w)
    }
}

/// A new field user.
pub struct CreateUserRequest {
    pub user_id: String,
    pub user_name: Option<String>,
    pub department: i32,
    pub department_name: Option<String>,
    pub passkey: String,
}

/// Changes to a field user.
pub struct UpdateUserRequest {
    pub user_id: String,
    pub user_name: Option<String>,
    pub department: i32,
    pub department_name: Option<String>,
    pub passkey: String,
}

/// A new password for an administrator account.
pub struct ResetPasswordRequest {
    pub new_password: String,
}

/// Filters of the per-department statistics.
pub struct FilteredDepartmentStatsRequest {
    pub month: Option<u32>,
    pub year: Option<i32>,
    pub user_name: Option<String>,
    pub department: Option<i32>,
    pub view_type: Option<String>,
}

/// A request for one user's month in detail.
pub struct UserDetailRequest {
    pub user_id: String,
    pub month: u32,
    pub year: i32,
}

/// An administrator account as shown to clients.
pub struct AdminUserInfo {
    pub id: i32,
    pub username: String,
    pub role: String,
    pub department: Option<i32>,
}

/// Credentials of an administrator login.
pub struct AdminLoginRequest {
    pub username: String,
    pub password: String,
}

/// The answer to a successful login: the new token and the account.
pub struct AdminLoginResponse {
    pub token: String,
    pub user: AdminUserInfo,
}

/// A new administrator account.
pub struct CreateAdminUserRequest {
    pub username: String,
    pub password: String,
    pub role: String,
    pub department: Option<i32>,
}

/// Changes to an administrator account; the password only when given.
pub struct UpdateAdminUserRequest {
    pub username: String,
    pub password: Option<String>,
    pub role: String,
    pub department: Option<i32>,
}

/// Why an administrator account was refused.
#[derive(Clone, Copy, Debug, PartialEq, Eq, Structural)]
pub enum AccountError {
    /// A department administrator must name a department.
    DepartmentRequired,
}

/// Why a request was refused access.
#[derive(Clone, Copy, Debug, PartialEq, Eq, Structural)]
pub enum AccessError {
    /// No valid bearer token.
    Unauthenticated,
    /// A valid token, but not of a full administrator.
    Forbidden,
}

/// The role rule of accounts: a department administrator needs a department.
pub fn check_role_fields(role: &str, department: Option<i32>) -> (r: Result<(), AccountError>)
    ensures
        r.is_err() <==> (role@ == department_role() && department.is_none()),
        r.is_err() ==> r == Err::<(), AccountError>(AccountError::DepartmentRequired),
{
    let w = "department";
    proof {
        reveal_strlit("department");
        assert(w@ =~= department_role());
    }
    if department.is_none() && same_text(role, w) {
        Err(AccountError::DepartmentRequired)
    } else {
        Ok(())
    }
}

impl CreateAdminUserRequest {
    /// Checks the role rule for the new account.
    pub fn validate(&self) -> (r: Result<(), AccountError>)
        ensures
            r.is_err() <==> (self.role@ == department_role() && self.department.is_none()),
    {
        check_role_fields(self.role.as_str(), self.department)
    }
}

impl UpdateAdminUserRequest {
    /// Checks the role rule for the changed account.
    pub fn validate(&self) -> (r: Result<(), AccountError>)
        ensures
            r.is_err() <==> (self.role@ == department_role() && self.department.is_none()),
    {
        check_role_fields(self.role.as_str(), self.department)
    }
}

/// The session that logging in `user` opens.
pub open spec fn session_of(user: AdminUserInfo) -> AdminSession {
    AdminSession {
        user_id: user.id,
        username: user.username,
        role: user.role,
        department: user.department,
    }
}

/// The token map that a list of entries stands for; a later entry wins.
pub open spec fn token_map(s: Seq<(String, AdminSession)>) -> Map<Seq<char>, AdminSession>
    decreases s.len(),
{
    if s.len() == 0 {
        Map::empty()
    } else {
        token_map(s.drop_last()).insert(s.last().0@, s.last().1)
    }
}

/// No token occurs twice.
pub open spec fn tokens_unique(s: Seq<(String, AdminSession)>) -> bool {
    forall|i: int, j: int|
        0 <= i < s.len() && 0 <= j < s.len() && i != j ==> #[trigger] s[i].0@ != #[trigger] s[j].0@
}

proof fn lemma_token_absent(s: Seq<(String, AdminSession)>, key: Seq<char>)
    requires
        forall|k: int| 0 <= k < s.len() ==> #[trigger] s[k].0@ != key,
    ensures
        !token_map(s).contains_key(key),
    decreases s.len(),
{
    if s.len() > 0 {
        let t = s.drop_last();
        assert forall|k: int| 0 <= k < t.len() implies #[trigger] t[k].0@ != key by {
            assert(t[k] == s[k]);
        }
        lemma_token_absent(t, key);
    }
}

proof fn lemma_token_present(s: Seq<(String, AdminSession)>, k: int)
    requires
        tokens_unique(s),
        0 <= k < s.len(),
    ensures
        token_map(s).contains_key(s[k].0@),
        token_map(s)[s[k].0@] == s[k].1,
    decreases s.len(),
{
    let t = s.drop_last();
    if k < s.len() - 1 {
        assert(tokens_unique(t)) by {
            assert forall|i: int, j: int|
                0 <= i < t.len() && 0 <= j < t.len() && i != j implies #[trigger] t[i].0@ != #[trigger] t[j].0@ by {
                assert(t[i] == s[i] && t[j] == s[j]);
            }
        }
        assert(t[k] == s[k]);
        lemma_token_present(t, k);
        assert(s[k].0@ != s[s.len() - 1].0@);
    }
}

proof fn lemma_tokens_unique_prefix(s: Seq<(String, AdminSession)>)
    requires
        tokens_unique(s),
        s.len() > 0,
    ensures
        tokens_unique(s.drop_last()),
        forall|k: int| 0 <= k < s.len() - 1 ==> #[trigger] s[k].0@ != s.last().0@,
{
    let t = s.drop_last();
    assert forall|i: int, j: int|
        0 <= i < t.len() && 0 <= j < t.len() && i != j implies #[trigger] t[i].0@ != #[trigger] t[j].0@ by {
        assert(t[i] == s[i] && t[j] == s[j]);
    }
    assert forall|k: int| 0 <= k < s.len() - 1 implies #[trigger] s[k].0@ != s.last().0@ by {
        assert(s[k].0@ != s[s.len() - 1].0@);
    }
}

proof fn lemma_token_update(s: Seq<(String, AdminSession)>, k: int, v: (String, AdminSession))
    requires
        tokens_unique(s),
        0 <= k < s.len(),
        s[k].0@ == v.0@,
    ensures
        token_map(s.update(k, v)) =~= token_map(s).insert(v.0@, v.1),
    decreases s.len(),
{
    let t = s.drop_last();
    let u = s.update(k, v);
    lemma_tokens_unique_prefix(s);
    if k == s.len() - 1 {
        assert(u.drop_last() =~= t);
    } else {
        assert(u.drop_last() =~= t.update(k, v));
        assert(t[k] == s[k]);
        lemma_token_update(t, k, v);
        assert(u.last() == s.last());
        assert(s[k].0@ != s.last().0@);
    }
}

proof fn lemma_token_remove(s: Seq<(String, AdminSession)>, k: int)
    requires
        tokens_unique(s),
        0 <= k < s.len(),
    ensures
        token_map(s.remove(k)) =~= token_map(s).remove(s[k].0@),
        tokens_unique(s.remove(k)),
    decreases s.len(),
{
    let t = s.drop_last();
    let u = s.remove(k);
    lemma_tokens_unique_prefix(s);
    if k == s.len() - 1 {
        assert(u =~= t);
        lemma_token_absent(t, s.last().0@);
    } else {
        assert(u.drop_last() =~= t.remove(k));
        assert(u.last() == s.last());
        assert(t[k] == s[k]);
        lemma_token_remove(t, k);
        assert(s[k].0@ != s.last().0@);
    }
    assert forall|i: int, j: int|
        0 <= i < u.len() && 0 <= j < u.len() && i != j implies #[trigger] u[i].0@ != #[trigger] u[j].0@ by {
        let i2 = if i < k { i } else { i + 1 };
        let j2 = if j < k { j } else { j + 1 };
        assert(u[i] == s[i2] && u[j] == s[j2]);
    }
}

/// Whether `c` is a lower-case hexadecimal digit.
pub open spec fn is_lower_hex(c: char) -> bool {
    ('0' <= c && c <= '9') || ('a' <= c && c <= 'f')
}

/// The shape of a token: 36 characters, hyphens at 8, 13, 18 and 23, and
/// lower-case hexadecimal digits everywhere else.
pub open spec fn is_token_shape(t: Seq<char>) -> bool {
    &&& t.len() == 36
    &&& forall|i: int|
        0 <= i < 36 ==> if i == 8 || i == 13 || i == 18 || i == 23 {
            #[trigger] t[i] == '-'
        } else {
            is_lower_hex(t[i])
        }
}

/// Relies on uuid::Builder::from_random_bytes, Builder::into_uuid and the
/// Display impl of Uuid: the random version-4 UUID made of `random`, written
/// in the lower-case hyphenated form (uuid's format_hyphenated), which has
/// that shape for every input.
#[verifier::external_body]
fn token_from_bytes(random: [u8; 16]) -> (r: String)
    ensures
        is_token_shape(r@),
{
    uuid::Builder::from_random_bytes(random).into_uuid().to_string()
}

/// The store of live administrator sessions, keyed by token.
pub struct AdminSessions {
    entries: Vec<(String, AdminSession)>,
}

impl View for AdminSessions {
    type V = Map<Seq<char>, AdminSession>;

    closed spec fn view(&self) -> Map<Seq<char>, AdminSession> {
        token_map(self.entries@)
    }
}

impl AdminSessions {
    /// The invariant of the store.
    pub closed spec fn wf(&self) -> bool {
        tokens_unique(self.entries@)
    }

    /// An empty store.
    pub fn new() -> (r: AdminSessions)
        ensures
            r.wf(),
            r@ == Map::<Seq<char>, AdminSession>::empty(),
    {
        AdminSessions { entries: Vec::new() }
    }

    fn position(&self, token: &String) -> (r: Option<usize>)
        ensures
            r.is_some() ==> r.unwrap() < self.entries@.len() && self.entries@[r.unwrap() as int].0@
                == token@,
            r.is_none() ==> forall|k: int|
                0 <= k < self.entries@.len() ==> #[trigger] self.entries@[k].0@ != token@,
    {
        let mut i: usize = 0;
        while i < self.entries.len()
            invariant
                i <= self.entries@.len(),
                forall|k: int| 0 <= k < i ==> #[trigger] self.entries@[k].0@ != token@,
            decreases self.entries@.len() - i,
        {
            if self.entries[i].0 == *token {
                return Some(i);
            }
            i = i + 1;
        }
        None
    }

    /// Looks up the session of a token.
    pub fn validate(&self, token: &str) -> (r: Option<AdminSession>)
        requires
            self.wf(),
        ensures
            r.is_some() == self@.contains_key(token@),
            r.is_some() ==> r.unwrap() == self@[token@],
    {
        let key = token.to_string();
        match self.position(&key) {
            Some(k) => {
                proof {
                    lemma_token_present(self.entries@, k as int);
                }
                Some(self.entries[k].1.duplicate())
            },
            None => {
                proof {
                    lemma_token_absent(self.entries@, token@);
                }
                None
            },
        }
    }

    /// Records `session` under `token`, replacing what the token held.
    pub fn issue(&mut self, token: String, session: AdminSession)
        requires
            old(self).wf(),
        ensures
            final(self).wf(),
            final(self)@ == old(self)@.insert(token@, session),
    {
        match self.position(&token) {
            Some(k) => {
                proof {
                    lemma_token_update(self.entries@, k as int, (token, session));
                }
                self.entries.set(k, (token, session));
                proof {
                    let s = self.entries@;
                    assert forall|i: int, j: int|
                        0 <= i < s.len() && 0 <= j < s.len() && i != j implies #[trigger] s[i].0@
                        != #[trigger] s[j].0@ by {
                        assert(old(self).entries@[i].0@ != old(self).entries@[j].0@);
                    }
                }
            },
            None => {
                self.entries.push((token, session));
                proof {
                    let s = self.entries@;
                    assert(s.drop_last() =~= old(self).entries@);
                    assert forall|i: int, j: int|
                        0 <= i < s.len() && 0 <= j < s.len() && i != j implies #[trigger] s[i].0@
                        != #[trigger] s[j].0@ by {
                        if i < s.len() - 1 && j < s.len() - 1 {
                            assert(old(self).entries@[i].0@ != old(self).entries@[j].0@);
                        } else if i < s.len() - 1 {
                            assert(s[i] == old(self).entries@[i]);
                        } else {
                            assert(s[j] == old(self).entries@[j]);
                        }
                    }
                }
            },
        }
    }

    /// Ends the session of a token, if there is one.
    pub fn revoke(&mut self, token: &str)
        requires
            old(self).wf(),
        ensures
            final(self).wf(),
            final(self)@ == old(self)@.remove(token@),
    {
        let key = token.to_string();
        match self.position(&key) {
            Some(k) => {
                proof {
                    lemma_token_remove(self.entries@, k as int);
                }
                self.entries.remove(k);
            },
            None => {
                proof {
                    lemma_token_absent(self.entries@, token@);
                    assert(token_map(self.entries@).remove(token@) =~= token_map(self.entries@));
                }
            },
        }
    }

    /// Opens a session for an administrator whose credentials were accepted,
    /// under a token made from 16 random bytes that the caller draws.
    pub fn admin_login(&mut self, user: AdminUserInfo, random: [u8; 16]) -> (r: AdminLoginResponse)
        requires
            old(self).wf(),
        ensures
            final(self).wf(),
            final(self)@ == old(self)@.insert(r.token@, session_of(user)),
            is_token_shape(r.token@),
            r.user == user,
    {
        let token = token_from_bytes(random);
        let session = AdminSession {
            user_id: user.id,
            username: user.username.clone(),
            role: user.role.clone(),
            department: user.department,
        };
        self.issue(token.clone(), session);
        AdminLoginResponse { token, user }
    }

    /// The session named by an `Authorization` header of the form `Bearer <token>`.
    pub fn session_from_header(&self, header: &str) -> (r: Option<AdminSession>)
        requires
            self.wf(),
        ensures
            r.is_some() <==> bearer_token_of(header@).is_some() && self@.contains_key(
                bearer_token_of(header@).unwrap(),
            ),
            r.is_some() ==> r.unwrap() == self@[bearer_token_of(header@).unwrap()],
    {
        let n = header.unicode_len();
        if n < 7 {
            return None;
        }
        let prefix = header.substring_char(0, 7);
        let p = "Bearer ";
        proof {
            reveal_strlit("Bearer ");
            assert(p@ =~= bearer_prefix());
            assert(header@.take(7) =~= header@.subrange(0, 7));
        }
        if !same_text(prefix, p) {
            return None;
        }
        let token = header.substring_char(7, n);
        proof {
            assert(header@.skip(7) =~= header@.subrange(7, n as int));
        }
        self.validate(token)
    }

    /// Authorises a request by its `Authorization` header: any live session.
    pub fn require_admin_auth(&self, header: Option<&str>) -> (r: Result<AdminSession, AccessError>)
        requires
            self.wf(),
        ensures
            r.is_ok() <==> header.is_some() && bearer_token_of(header.unwrap()@).is_some()
                && self@.contains_key(bearer_token_of(header.unwrap()@).unwrap()),
            r.is_ok() ==> r.unwrap() == self@[bearer_token_of(header.unwrap()@).unwrap()],
            r.is_err() ==> r == Err::<AdminSession, AccessError>(AccessError::Unauthenticated),
    {
        match header {
            None => Err(AccessError::Unauthenticated),
            Some(h) => match self.session_from_header(h) {
                Some(s) => Ok(s),
                None => Err(AccessError::Unauthenticated),
            },
        }
    }

    /// Authorises a request that only a full administrator may make.
    pub fn require_admin_role(&self, header: Option<&str>) -> (r: Result<AdminSession, AccessError>)
        requires
            self.wf(),
        ensures
            r.is_ok() <==> header.is_some() && bearer_token_of(header.unwrap()@).is_some()
                && self@.contains_key(bearer_token_of(header.unwrap()@).unwrap())
                && self@[bearer_token_of(header.unwrap()@).unwrap()].role@ == admin_role(),
            r.is_ok() ==> r.unwrap() == self@[bearer_token_of(header.unwrap()@).unwrap()],
            r == Err::<AdminSession, AccessError>(AccessError::Forbidden) <==> header.is_some()
                && bearer_token_of(header.unwrap()@).is_some() && self@.contains_key(
                bearer_token_of(header.unwrap()@).unwrap(),
            ) && self@[bearer_token_of(header.unwrap()@).unwrap()].role@ != admin_role(),
    {
        match self.require_admin_auth(header) {
            Err(e) => Err(e),
            Ok(s) => {
                proof {
                    assert(s.role@ == self@[bearer_token_of(header.unwrap()@).unwrap()].role@);
                }
                if s.is_admin() {
                    Ok(s)
                } else {
                    Err(AccessError::Forbidden)
                }
            },
        }
    }
}

/// The session of an administrator token, if it is live.
pub fn verify_admin_token(sessions: &AdminSessions, token: &str) -> (r: Option<AdminSession>)
    requires
        sessions.wf(),
    ensures
        r.is_some() == sessions@.contains_key(token@),
        r.is_some() ==> r.unwrap() == sessions@[token@],
{
    sessions.validate(token)
}

/// Filters of the administrators' event listing, as given in a query string.
pub struct CheckinQuery {
    pub user_id: Option<String>,
    pub action: Option<String>,
    pub limit: Option<i64>,
}

/// One condition of an event listing; its value is bound as a parameter,
/// never spliced into the query text.
pub enum CheckinFilter {
    UserId(String),
    Action(String),
}

/// The conditions and row limit of an event listing.
pub struct CheckinSelection {
    pub filters: Vec<CheckinFilter>,
    pub limit: i64,
}

/// Rows listed when the query names no limit.
pub const DEFAULT_CHECKIN_LIMIT: i64 = 100;

impl CheckinQuery {
    /// The conditions of this query, the user filter first, and its limit.
    pub fn selection(&self) -> (r: CheckinSelection)
        ensures
            r.filters@.len() == (if self.user_id.is_some() { 1int } else { 0int }) + (if self.action.is_some() {
                1int
            } else {
                0int
            }),
            self.user_id.is_some() ==> r.filters@[0] == CheckinFilter::UserId(self.user_id.unwrap()),
            self.action.is_some() ==> r.filters@.last() == CheckinFilter::Action(self.action.unwrap()),
            r.limit == (match self.limit {
                Some(n) => n,
                None => DEFAULT_CHECKIN_LIMIT,
            }),
    {
        let mut filters: Vec<CheckinFilter> = Vec::new();
        match &self.user_id {
            Some(u) => filters.push(CheckinFilter::UserId(u.clone())),
            None => {},
        }
        match &self.action {
            Some(a) => filters.push(CheckinFilter::Action(a.clone())),
            None => {},
        }
        let limit = match self.limit {
            Some(n) => n,
            None => DEFAULT_CHECKIN_LIMIT,
        };
        CheckinSelection { filters, limit }
    }
}

} // verus!
