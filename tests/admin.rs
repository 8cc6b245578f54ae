use attendance::admin::{
    check_role_fields, verify_admin_token, CheckinFilter, CheckinQuery, AccessError, AccountError, AdminSession, AdminSessions,
    AdminUserInfo, CreateAdminUserRequest, UpdateAdminUserRequest,
};
use attendance::models::{ApiResponse, UserInfo, UserInfoResponse};

fn session(role: &str) -> AdminSession {
    AdminSession { user_id: 7, username: "kim".to_string(), role: role.to_string(), department: Some(2) }
}

#[test]
fn tokens_issue_validate_revoke() {
    let mut store = AdminSessions::new();
    assert!(verify_admin_token(&store, "t1").is_none());
    store.issue("t1".to_string(), session("admin"));
    store.issue("t2".to_string(), session("department"));
    let s = verify_admin_token(&store, "t1").unwrap();
    assert_eq!(s.user_id, 7);
    assert_eq!(s.role, "admin");
    assert_eq!(verify_admin_token(&store, "t2").unwrap().role, "department");
    store.issue("t1".to_string(), session("department"));
    assert_eq!(verify_admin_token(&store, "t1").unwrap().role, "department");
    store.revoke("t1");
    assert!(verify_admin_token(&store, "t1").is_none());
    assert!(verify_admin_token(&store, "t2").is_some());
    store.revoke("missing");
    assert!(verify_admin_token(&store, "t2").is_some());
}

#[test]
fn login_issues_fresh_tokens() {
    let mut store = AdminSessions::new();
    let user = AdminUserInfo { id: 3, username: "lee".to_string(), role: "admin".to_string(), department: None };
    let a = store.admin_login(user, [0u8; 16]);
    assert_eq!(a.token, "00000000-0000-4000-8000-000000000000");
    assert_eq!(a.user.id, 3);
    let user2 = AdminUserInfo { id: 3, username: "lee".to_string(), role: "admin".to_string(), department: None };
    let b = store.admin_login(user2, [0xab; 16]);
    assert_ne!(a.token, b.token);
    let s = verify_admin_token(&store, &a.token).unwrap();
    assert_eq!(s.username, "lee");
    assert!(verify_admin_token(&store, &b.token).is_some());
    assert_eq!(b.token, "abababab-abab-4bab-abab-abababababab");
}

#[test]
fn bearer_headers() {
    let mut store = AdminSessions::new();
    store.issue("abc".to_string(), session("department"));
    store.issue("root".to_string(), session("admin"));
    assert!(store.session_from_header("Bearer abc").is_some());
    assert!(store.session_from_header("bearer abc").is_none());
    assert!(store.session_from_header("Bearer").is_none());
    assert!(store.session_from_header("abc").is_none());
    assert!(store.require_admin_auth(Some("Bearer abc")).is_ok());
    assert_eq!(store.require_admin_auth(None).err(), Some(AccessError::Unauthenticated));
    assert_eq!(store.require_admin_role(Some("Bearer abc")).err(), Some(AccessError::Forbidden));
    assert_eq!(store.require_admin_role(Some("Bearer nope")).err(), Some(AccessError::Unauthenticated));
    assert_eq!(store.require_admin_role(Some("Bearer root")).unwrap().role, "admin");
}

#[test]
fn role_rules() {
    assert!(session("admin").is_admin());
    assert!(!session("department").is_admin());
    assert_eq!(check_role_fields("department", None), Err(AccountError::DepartmentRequired));
    assert_eq!(check_role_fields("department", Some(4)), Ok(()));
    assert_eq!(check_role_fields("admin", None), Ok(()));
    let c = CreateAdminUserRequest {
        username: "a".to_string(),
        password: "p".to_string(),
        role: "department".to_string(),
        department: None,
    };
    assert!(c.validate().is_err());
    let u = UpdateAdminUserRequest {
        username: "a".to_string(),
        password: None,
        role: "department".to_string(),
        department: Some(1),
    };
    assert!(u.validate().is_ok());
}

#[test]
fn response_envelope() {
    let ok = ApiResponse::success(5usize, "Checkins synced successfully");
    assert!(ok.success);
    assert_eq!(ok.message, "Checkins synced successfully");
    assert_eq!(ok.data, Some(5));
    let err = ApiResponse::<()>::error("Invalid credentials");
    assert!(!err.success);
    assert_eq!(err.message, "Invalid credentials");
    assert!(err.data.is_none());
}

#[test]
fn user_info_response_drops_passkey() {
    let u = UserInfo {
        id: 1,
        user_id: "u1".to_string(),
        department: 99,
        department_name: Some("Ops".to_string()),
        department_code: None,
        passkey: "SECRET-REDACTED".to_string(),
    };
    let r = UserInfoResponse::from_user(u);
    assert_eq!(r.user_id, "u1");
    assert_eq!(r.department, 99);
    assert_eq!(r.department_name, Some("Ops".to_string()));
}

#[test]
fn checkin_query_selection() {
    let q = CheckinQuery { user_id: Some("u1".to_string()), action: Some("IN".to_string()), limit: None };
    let s = q.selection();
    assert_eq!(s.limit, 100);
    assert_eq!(s.filters.len(), 2);
    assert!(matches!(&s.filters[0], CheckinFilter::UserId(u) if u == "u1"));
    assert!(matches!(&s.filters[1], CheckinFilter::Action(a) if a == "IN"));
    let q2 = CheckinQuery { user_id: None, action: Some("OUT".to_string()), limit: Some(5) };
    let s2 = q2.selection();
    assert_eq!(s2.limit, 5);
    assert_eq!(s2.filters.len(), 1);
    assert!(matches!(&s2.filters[0], CheckinFilter::Action(a) if a == "OUT"));
    let q3 = CheckinQuery { user_id: None, action: None, limit: None };
    assert!(q3.selection().filters.is_empty());
}

#[test]
fn admin_permission_rules() {
    let admin = session("admin");
    let dept = session("department");
    assert!(admin.may_delete_account(8));
    assert!(!admin.may_delete_account(7));
    assert!(!dept.may_delete_account(8));
    assert!(admin.may_view_department(5));
    assert!(dept.may_view_department(2));
    assert!(!dept.may_view_department(3));
    let homeless = AdminSession { user_id: 1, username: "x".to_string(), role: "department".to_string(), department: None };
    assert!(!homeless.may_view_department(0));
    assert_eq!(admin.department_scope(), None);
    assert_eq!(dept.department_scope(), Some(2));
    assert_eq!(homeless.department_scope(), Some(0));
    assert_eq!(admin.department_filter(Some(4)), Some(4));
    assert_eq!(admin.department_filter(None), None);
    assert_eq!(dept.department_filter(Some(4)), Some(2));
    assert_eq!(homeless.department_filter(Some(4)), None);
    assert!(dept.is_department_admin());
    assert!(!admin.is_department_admin());
}
