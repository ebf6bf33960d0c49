use memoire::config::{exit_push, SyncProvider};

#[test]
fn exit_pushes_only_to_the_preferred_storage() {
    let repo = Some("me/novel".to_string());
    let folder = Some("/Novel".to_string());

    let r = exit_push(SyncProvider::Github, true, &repo, true, folder.clone());
    assert!(r.github);
    assert_eq!(r.dropbox_folder, None);

    let r = exit_push(SyncProvider::Github, true, &None, true, folder.clone());
    assert!(!r.github);

    let r = exit_push(SyncProvider::Github, false, &repo, true, folder.clone());
    assert!(!r.github && r.dropbox_folder.is_none());

    let r = exit_push(SyncProvider::Dropbox, true, &repo, true, folder.clone());
    assert!(!r.github);
    assert_eq!(r.dropbox_folder, folder);

    let r = exit_push(SyncProvider::Dropbox, true, &repo, false, folder.clone());
    assert!(!r.github && r.dropbox_folder.is_none());

    let r = exit_push(SyncProvider::Dropbox, true, &repo, true, None);
    assert!(r.dropbox_folder.is_none());
}
