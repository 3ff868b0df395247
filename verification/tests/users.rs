use seacoller::json::JsonSerializer;
use seacoller::user_system::{
    validate_password, validate_username, CollectionPermission, DataBasePermission, User,
    UserPermissions, UserSystem, UserSystemError, UserType,
};

#[test]
fn test_user_permissions_from_user_types() {
    let admin = User::new_from_user_type(UserType::Admin, "admin".to_string(), "123456".to_string());
    let user = User::new_from_user_type(UserType::User, "user".to_string(), "123456".to_string());
    let guest = User::new_from_user_type(UserType::Guest, "guest".to_string(), "123456".to_string());

    assert_eq!(admin.user_permissions.database_permissions, None);
    assert_eq!(admin.user_permissions.all_collections, None);
    assert_eq!(user.user_permissions.database_permissions, Some(vec![DataBasePermission::Listen]));
    assert_eq!(user.user_permissions.all_collections, None);
    assert_eq!(guest.user_permissions.database_permissions, Some(vec![DataBasePermission::Listen]));
    assert_eq!(guest.user_permissions.all_collections, Some(vec![CollectionPermission::Read]));

    println!("admin = {}", JsonSerializer::serialize(admin.to_json()));
    println!("user = {}", JsonSerializer::serialize(user.to_json()));
    println!("guest = {}", JsonSerializer::serialize(guest.to_json()));

    let new_admin = User::from_json(admin.to_json()).unwrap();
    let new_user = User::from_json(user.to_json()).unwrap();
    let new_guest = User::from_json(guest.to_json()).unwrap();

    assert_eq!(new_admin, admin);
    assert_eq!(new_user, user);
    assert_eq!(new_guest, guest);
}

#[test]
fn test_custom_users() {
    let mut user_permissions = UserPermissions::new();
    let test_collection_partial_name = "partial test collection".to_string();
    let test_collection_name = "test collection".to_string();
    user_permissions
        .add_db_permission(DataBasePermission::Create)
        .add_db_permission(DataBasePermission::Listen)
        .add_db_permission(DataBasePermission::Drop)
        .add_collection_permission(Some(test_collection_partial_name.clone()), CollectionPermission::Insert)
        .unwrap()
        .add_collection_permission(Some(test_collection_partial_name.clone()), CollectionPermission::Update)
        .unwrap()
        .set_collection_permissions_to_all(test_collection_name.clone());
    let user = User::new("test".to_string(), "123456".to_string(), user_permissions.clone());
    println!("user = {}", JsonSerializer::serialize(user.to_json()));
    let new_user = User::from_json(user.to_json()).unwrap();
    for permission in new_user.user_permissions.database_permissions.unwrap() {
        assert!(user_permissions.database_permissions.clone().unwrap().contains(&permission));
    }
    for permission in new_user.user_permissions.all_collections.unwrap() {
        assert!(user_permissions.all_collections.clone().unwrap().contains(&permission));
    }
    for (collection_name, _permissions) in new_user.user_permissions.specific_collections.iter() {
        assert!(user_permissions.specific_collections.iter().any(|(n, _)| n == collection_name));
    }
}

#[test]
fn test_validate_username() {}

#[test]
fn user_names_and_passwords() {
    assert!(validate_username("abc"));
    assert!(validate_username("thirteen_char"));
    assert!(!validate_username("ab"));
    assert!(!validate_username("fourteen_chars"));
    assert!(!validate_username("has space"));
    assert!(validate_username("a!b"));
    assert!(validate_password("12345"));
    assert!(!validate_password("1234"));
}

#[test]
fn permission_checks_by_kind() {
    let admin = User::new_from_user_type(UserType::Admin, "a".to_string(), "p".to_string());
    let user = User::new_from_user_type(UserType::User, "u".to_string(), "p".to_string());
    let guest = User::new_from_user_type(UserType::Guest, "g".to_string(), "p".to_string());
    let c = "any collection".to_string();
    assert!(admin.can_insert(&c) && admin.can_delete(&c) && admin.can_create() && admin.can_drop());
    assert!(user.can_update(&c) && user.can_listen() && !user.can_create() && !user.can_drop());
    assert!(guest.can_read(&c) && !guest.can_insert(&c) && !guest.can_delete(&c));
    assert!(guest.can_listen() && !guest.can_create());
    assert!(!admin.is_admin());
    assert!(guest.is_admin());
}

#[test]
fn named_collection_permissions_win() {
    let mut p = UserPermissions::new();
    p.add_collection_permission(None, CollectionPermission::Read).unwrap();
    p.add_collection_permission(Some("x".to_string()), CollectionPermission::Delete).unwrap();
    p.add_collection_permission(Some("x".to_string()), CollectionPermission::Delete).unwrap();
    p.set_collection_permissions_to_all("y".to_string());
    assert_eq!(p.specific_collections.len(), 2);
    let u = User::new("n".to_string(), "pw".to_string(), p);
    assert!(u.can_read(&"other".to_string()));
    assert!(!u.can_delete(&"other".to_string()));
    assert!(u.can_delete(&"x".to_string()));
    assert!(!u.can_read(&"x".to_string()));
    assert!(u.can_insert(&"y".to_string()));
}

#[test]
fn permission_names() {
    assert_eq!(CollectionPermission::from_name("update"), Ok(CollectionPermission::Update));
    assert_eq!(CollectionPermission::from_name("write"), Err(UserSystemError::PermissionError));
    assert_eq!(DataBasePermission::from_name("drop"), Ok(DataBasePermission::Drop));
    assert_eq!(DataBasePermission::Listen.name(), "listen");
    assert_eq!(CollectionPermission::Read.name(), "read");
}

#[test]
fn login_and_logout() {
    let mut system = UserSystem::new();
    assert_eq!(system.logout(), Err(UserSystemError::UserNotLoggedIn));
    assert_eq!(system.login("pw".to_string(), None), Err(UserSystemError::UserDoesNotExist));
    let stored = User::new_from_user_type(UserType::User, "me".to_string(), "pw".to_string());
    assert_eq!(system.login("wrong".to_string(), Some(stored.clone())), Err(UserSystemError::IncorrectPassword));
    assert!(system.get_logged_in_user().is_none());
    assert_eq!(system.login("pw".to_string(), Some(stored.clone())), Ok(()));
    assert_eq!(system.get_logged_in_user().unwrap().username, "me");
    assert_eq!(system.login("pw".to_string(), Some(stored)), Err(UserSystemError::UserAlreadyLoggedIn));
    assert_eq!(system.logout(), Ok(()));
    assert!(system.get_logged_in_user().is_none());
}

#[test]
fn user_json_has_three_members() {
    let user = User::new_from_user_type(UserType::Guest, "g".to_string(), "p".to_string());
    let json = user.to_json();
    assert_eq!(json.len(), 3);
    assert_eq!(json.get(&"username".to_string()).unwrap().as_string(), "g");
    assert_eq!(json.get(&"password".to_string()).unwrap().as_u8_vec(), Ok(user.password.clone()));
}

#[test]
fn permissions_without_named_collections_read_back() {
    let mut p = UserPermissions::new();
    p.add_db_permission(DataBasePermission::Listen)
        .add_db_permission(DataBasePermission::Create)
        .add_collection_permission(None, CollectionPermission::Update)
        .unwrap()
        .add_collection_permission(None, CollectionPermission::Read)
        .unwrap();
    let q = UserPermissions::from_json(p.to_json()).unwrap();
    let mut db = q.database_permissions.clone().unwrap();
    db.sort_by_key(|x| format!("{:?}", x));
    assert_eq!(db, vec![DataBasePermission::Create, DataBasePermission::Listen]);
    let mut all = q.all_collections.clone().unwrap();
    all.sort_by_key(|x| format!("{:?}", x));
    assert_eq!(all, vec![CollectionPermission::Read, CollectionPermission::Update]);
    assert!(q.specific_collections.is_empty());
}
