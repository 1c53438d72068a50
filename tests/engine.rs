use game_grove::category::TemplateCategory;
use game_grove::copier::copy_tree;
use game_grove::error::{FsOperation, MaterializeError};
use game_grove::locator::{candidate_paths, find_project_root, locate, SearchContext};
use game_grove::materialize::materialize;
use game_grove::memfs::{FsFault, FsOp, MemFs};
use game_grove::path::render_path;

fn path(parts: &[&str]) -> Vec<String> {
    parts.iter().map(|s| s.to_string()).collect()
}

fn mkdirs(fs: &mut MemFs, parts: &[&str]) {
    for k in 1..=parts.len() {
        let p = path(&parts[..k]);
        if !fs.contains(&p) {
            fs.create_dir(&p).unwrap();
        }
    }
}

fn put(fs: &mut MemFs, parts: &[&str], bytes: &[u8]) {
    mkdirs(fs, &parts[..parts.len() - 1]);
    fs.write_file(&path(parts), bytes.to_vec()).unwrap();
}

/// Every file below `root`, as (relative path, bytes), sorted.
fn files_below(fs: &MemFs, root: &Vec<String>) -> Vec<(Vec<String>, Vec<u8>)> {
    let mut out = Vec::new();
    let mut stack = vec![root.clone()];
    while let Some(dir) = stack.pop() {
        for name in fs.children(&dir) {
            let mut p = dir.clone();
            p.push(name);
            if fs.is_dir(&p) {
                stack.push(p);
            } else {
                let rel = p[root.len()..].to_vec();
                out.push((rel, fs.read_file(&p).unwrap()));
            }
        }
    }
    out.sort();
    out
}

fn dirs_below(fs: &MemFs, root: &Vec<String>) -> Vec<Vec<String>> {
    let mut out = Vec::new();
    let mut stack = vec![root.clone()];
    while let Some(dir) = stack.pop() {
        for name in fs.children(&dir) {
            let mut p = dir.clone();
            p.push(name);
            if fs.is_dir(&p) {
                out.push(p[root.len()..].to_vec());
                stack.push(p);
            }
        }
    }
    out.sort();
    out
}

fn dev_context() -> SearchContext {
    SearchContext { resource_dir: None, working_dir: path(&["app"]), exe_dir: None }
}

fn template_fs() -> MemFs {
    let mut fs = MemFs::new();
    mkdirs(&mut fs, &["tmp", "ws"]);
    mkdirs(&mut fs, &["app"]);
    put(&mut fs, &["app", "src", "2d-game-boilerplate", "index.html"], b"<html></html>");
    put(&mut fs, &["app", "src", "2d-game-boilerplate", "main.js"], b"start();");
    put(&mut fs, &["app", "src", "2d-game-boilerplate", "assets", "sprite.png"], &[137, 80, 78, 71]);
    fs
}

#[test]
fn memfs_refuses_bad_operations() {
    let mut fs = MemFs::new();
    assert_eq!(fs.create_dir(&path(&[])), Err(FsFault::AlreadyExists));
    assert_eq!(fs.create_dir(&path(&["a", "b"])), Err(FsFault::NotFound));
    fs.create_dir(&path(&["a"])).unwrap();
    assert_eq!(fs.create_dir(&path(&["a"])), Err(FsFault::AlreadyExists));
    assert_eq!(fs.write_file(&path(&["a"]), vec![1]), Err(FsFault::IsADirectory));
    fs.write_file(&path(&["a", "f"]), vec![1, 2]).unwrap();
    fs.write_file(&path(&["a", "f"]), vec![3]).unwrap();
    assert_eq!(fs.read_file(&path(&["a", "f"])), Ok(vec![3]));
    assert_eq!(fs.read_file(&path(&["a"])), Err(FsFault::IsADirectory));
    assert_eq!(fs.read_file(&path(&["zzz"])), Err(FsFault::NotFound));
    assert_eq!(fs.children(&path(&["a"])), vec!["f".to_string()]);
    assert_eq!(fs.operations().len(), 3);
}

#[test]
fn copy_reproduces_the_tree() {
    let mut fs = template_fs();
    mkdirs(&mut fs, &["app", "src", "2d-game-boilerplate", "empty"]);
    let src = path(&["app", "src", "2d-game-boilerplate"]);
    let dst = path(&["tmp", "ws", "copy"]);
    fs.create_dir(&dst).unwrap();
    copy_tree(&mut fs, &src, &dst).unwrap();
    assert_eq!(files_below(&fs, &dst), files_below(&fs, &src));
    assert_eq!(dirs_below(&fs, &dst), dirs_below(&fs, &src));
    assert!(fs.is_dir(&path(&["tmp", "ws", "copy", "empty"])));
    assert_eq!(fs.read_file(&path(&["tmp", "ws", "copy", "assets", "sprite.png"])), Ok(vec![137, 80, 78, 71]));
}

#[test]
fn copy_round_trip_file_sets_match() {
    let mut fs = template_fs();
    let src = path(&["app", "src", "2d-game-boilerplate"]);
    let dst = path(&["d"]);
    fs.create_dir(&dst).unwrap();
    copy_tree(&mut fs, &src, &dst).unwrap();
    let copied: Vec<Vec<String>> = files_below(&fs, &dst).into_iter().map(|f| f.0).collect();
    let source: Vec<Vec<String>> = files_below(&fs, &src).into_iter().map(|f| f.0).collect();
    assert_eq!(copied, source);
    assert_eq!(copied.len(), 3);
}

#[test]
fn copy_into_non_empty_destination_keeps_other_entries() {
    let mut fs = template_fs();
    let src = path(&["app", "src", "2d-game-boilerplate"]);
    put(&mut fs, &["tmp", "ws", "full", "x"], b"x");
    put(&mut fs, &["tmp", "ws", "full", "main.js"], b"old");
    copy_tree(&mut fs, &src, &path(&["tmp", "ws", "full"])).unwrap();
    assert_eq!(fs.read_file(&path(&["tmp", "ws", "full", "x"])), Ok(b"x".to_vec()));
    assert_eq!(fs.read_file(&path(&["tmp", "ws", "full", "main.js"])), Ok(b"start();".to_vec()));
    assert_eq!(fs.read_file(&path(&["tmp", "ws", "full", "assets", "sprite.png"])), Ok(vec![137, 80, 78, 71]));
}

#[test]
fn copy_refuses_clashing_entries() {
    let mut fs = template_fs();
    let src = path(&["app", "src", "2d-game-boilerplate"]);
    mkdirs(&mut fs, &["tmp", "ws", "a", "assets"]);
    let before = fs.operations().len();
    let e = copy_tree(&mut fs, &src, &path(&["tmp", "ws", "a"])).unwrap_err();
    assert_eq!(e.operation, FsOperation::CreateDir);
    assert_eq!(e.cause, FsFault::AlreadyExists);
    assert_eq!(e.path, path(&["tmp", "ws", "a", "assets"]));
    assert_eq!(fs.operations().len(), before);
    mkdirs(&mut fs, &["tmp", "ws", "b", "index.html"]);
    let e = copy_tree(&mut fs, &src, &path(&["tmp", "ws", "b"])).unwrap_err();
    assert_eq!(e.operation, FsOperation::WriteFile);
    assert_eq!(e.cause, FsFault::IsADirectory);
    assert_eq!(e.path, path(&["tmp", "ws", "b", "index.html"]));
}

#[test]
fn copy_onto_itself() {
    let mut fs = template_fs();
    mkdirs(&mut fs, &["e"]);
    copy_tree(&mut fs, &path(&["e"]), &path(&["e"])).unwrap();
    assert!(fs.children(&path(&["e"])).is_empty());
    put(&mut fs, &["f", "one"], b"1");
    copy_tree(&mut fs, &path(&["f"]), &path(&["f"])).unwrap();
    assert_eq!(fs.read_file(&path(&["f", "one"])), Ok(b"1".to_vec()));
    let e = copy_tree(&mut fs, &path(&["app"]), &path(&["app"])).unwrap_err();
    assert_eq!(e.cause, FsFault::AlreadyExists);
}

#[test]
fn materialize_where_target_is_first_candidate() {
    let mut fs = template_fs();
    mkdirs(&mut fs, &["opt", "res"]);
    let ctx = SearchContext {
        resource_dir: Some(path(&["opt", "res"])),
        working_dir: path(&["app"]),
        exe_dir: None,
    };
    let r = materialize(&mut fs, &path(&["opt", "res"]), &"2d-game-boilerplate".to_string(), "2d", &ctx);
    assert_eq!(r.unwrap(), "/opt/res/2d-game-boilerplate");
    let target = path(&["opt", "res", "2d-game-boilerplate"]);
    assert!(fs.is_dir(&target));
    assert!(fs.children(&target).is_empty());
}

#[test]
fn copy_refuses_overlap_and_missing_source() {
    let mut fs = template_fs();
    let src = path(&["app", "src", "2d-game-boilerplate"]);
    let inner = path(&["app", "src", "2d-game-boilerplate", "inner"]);
    fs.create_dir(&inner).unwrap();
    let e = copy_tree(&mut fs, &src, &inner).unwrap_err();
    assert_eq!(e.cause, FsFault::Overlapping);
    let e = copy_tree(&mut fs, &path(&["nope"]), &path(&["tmp", "ws"])).unwrap_err();
    assert_eq!(e.operation, FsOperation::ReadDir);
    assert_eq!(e.cause, FsFault::NotFound);
    let e = copy_tree(&mut fs, &src, &path(&["app", "src", "2d-game-boilerplate", "main.js"])).unwrap_err();
    assert_eq!(e.cause, FsFault::NotADirectory);
}

#[test]
fn candidates_in_search_order() {
    let ctx = SearchContext {
        resource_dir: Some(path(&["opt", "gg", "resources"])),
        working_dir: path(&["home", "me"]),
        exe_dir: Some(path(&["opt", "gg", "bin"])),
    };
    let c = candidate_paths(TemplateCategory::ThreeD, &ctx, &path(&["home"]));
    let shown: Vec<String> = c.iter().map(render_path).collect();
    assert_eq!(
        shown,
        vec![
            "/opt/gg/resources/3d-game-boilerplate",
            "/opt/gg/src/3d-game-boilerplate",
            "/home/me/src/3d-game-boilerplate",
            "/home/src/3d-game-boilerplate",
            "/opt/gg/bin/src/3d-game-boilerplate",
            "/opt/gg/src/3d-game-boilerplate",
            "/opt/src/3d-game-boilerplate",
            "/src/3d-game-boilerplate",
        ]
    );
}

#[test]
fn exe_near_root_has_fewer_ancestors() {
    let ctx = SearchContext { resource_dir: None, working_dir: path(&["w"]), exe_dir: Some(path(&["bin"])) };
    let c = candidate_paths(TemplateCategory::TwoD, &ctx, &path(&["w"]));
    let shown: Vec<String> = c.iter().map(render_path).collect();
    assert_eq!(
        shown,
        vec![
            "/w/src/2d-game-boilerplate",
            "/w/src/2d-game-boilerplate",
            "/bin/src/2d-game-boilerplate",
            "/src/2d-game-boilerplate",
        ]
    );
}

#[test]
fn project_root_is_nearest_marked_ancestor() {
    let mut fs = MemFs::new();
    mkdirs(&mut fs, &["p", "q", "r", "s"]);
    put(&mut fs, &["p", "Cargo.toml"], b"");
    put(&mut fs, &["p", "q", "Cargo.toml"], b"");
    assert_eq!(find_project_root(&fs, &path(&["p", "q", "r", "s"])), path(&["p", "q"]));
    assert_eq!(find_project_root(&fs, &path(&["p"])), path(&["p"]));
    let bare = MemFs::new();
    assert_eq!(find_project_root(&bare, &path(&["x", "y"])), path(&["x", "y"]));
}

#[test]
fn locate_takes_first_match_every_time() {
    let mut fs = template_fs();
    mkdirs(&mut fs, &["opt", "res", "2d-game-boilerplate"]);
    let ctx = SearchContext {
        resource_dir: Some(path(&["opt", "res"])),
        working_dir: path(&["app"]),
        exe_dir: None,
    };
    let a = locate(&fs, TemplateCategory::TwoD, &ctx).unwrap();
    let b = locate(&fs, TemplateCategory::TwoD, &ctx).unwrap();
    assert_eq!(a, path(&["opt", "res", "2d-game-boilerplate"]));
    assert_eq!(a, b);
    let dev = locate(&fs, TemplateCategory::TwoD, &dev_context()).unwrap();
    assert_eq!(dev, path(&["app", "src", "2d-game-boilerplate"]));
}

#[test]
fn locate_skips_a_file_in_the_way() {
    let mut fs = template_fs();
    put(&mut fs, &["opt", "res", "2d-game-boilerplate"], b"not a dir");
    let ctx = SearchContext {
        resource_dir: Some(path(&["opt", "res"])),
        working_dir: path(&["app"]),
        exe_dir: None,
    };
    let found = locate(&fs, TemplateCategory::TwoD, &ctx).unwrap();
    assert_eq!(found, path(&["app", "src", "2d-game-boilerplate"]));
}

#[test]
fn locate_reports_every_checked_path() {
    let fs = template_fs();
    let e = locate(&fs, TemplateCategory::ThreeD, &dev_context()).unwrap_err();
    match e {
        MaterializeError::TemplateNotFound { category, checked_paths } => {
            assert_eq!(category, TemplateCategory::ThreeD);
            assert_eq!(checked_paths, vec!["/app/src/3d-game-boilerplate", "/app/src/3d-game-boilerplate"]);
        }
        other => panic!("unexpected {:?}", other),
    }
}

#[test]
fn materialize_copies_the_template() {
    let mut fs = template_fs();
    let r = materialize(&mut fs, &path(&["tmp", "ws"]), &"myGame".to_string(), "2d", &dev_context());
    assert_eq!(r.unwrap(), "/tmp/ws/myGame");
    let target = path(&["tmp", "ws", "myGame"]);
    assert_eq!(fs.read_file(&path(&["tmp", "ws", "myGame", "index.html"])), Ok(b"<html></html>".to_vec()));
    assert_eq!(fs.read_file(&path(&["tmp", "ws", "myGame", "main.js"])), Ok(b"start();".to_vec()));
    assert_eq!(
        fs.read_file(&path(&["tmp", "ws", "myGame", "assets", "sprite.png"])),
        Ok(vec![137, 80, 78, 71])
    );
    assert_eq!(files_below(&fs, &target), files_below(&fs, &path(&["app", "src", "2d-game-boilerplate"])));
    match &fs.operations()[fs.operations().len() - 5] {
        FsOp::CreateDir(p) => assert_eq!(p, &target),
        other => panic!("unexpected {:?}", other),
    }
}

#[test]
fn materialize_without_template_leaves_empty_target() {
    let mut fs = template_fs();
    let ctx = SearchContext {
        resource_dir: Some(path(&["opt", "res"])),
        working_dir: path(&["home", "me"]),
        exe_dir: Some(path(&["opt", "gg", "bin"])),
    };
    let e = materialize(&mut fs, &path(&["tmp", "ws"]), &"myGame".to_string(), "3d", &ctx).unwrap_err();
    match e {
        MaterializeError::TemplateNotFound { category, checked_paths } => {
            assert_eq!(category, TemplateCategory::ThreeD);
            assert_eq!(checked_paths.len(), 8);
            assert_eq!(checked_paths[0], "/opt/res/3d-game-boilerplate");
        }
        other => panic!("unexpected {:?}", other),
    }
    let target = path(&["tmp", "ws", "myGame"]);
    assert!(fs.is_dir(&target));
    assert!(fs.children(&target).is_empty());
}

#[test]
fn materialize_refuses_existing_target() {
    let mut fs = template_fs();
    mkdirs(&mut fs, &["tmp", "ws", "taken"]);
    let before = fs.operations().len();
    let e = materialize(&mut fs, &path(&["tmp", "ws"]), &"taken".to_string(), "2d", &dev_context()).unwrap_err();
    match e {
        MaterializeError::AlreadyExists { path: p } => assert_eq!(p, path(&["tmp", "ws", "taken"])),
        other => panic!("unexpected {:?}", other),
    }
    assert_eq!(fs.operations().len(), before);
    assert!(fs.children(&path(&["tmp", "ws", "taken"])).is_empty());
}

#[test]
fn materialize_refuses_unknown_category() {
    let mut fs = template_fs();
    let before = fs.operations().len();
    let e = materialize(&mut fs, &path(&["tmp", "ws"]), &"g".to_string(), "4d", &dev_context()).unwrap_err();
    match e {
        MaterializeError::InvalidCategory { given } => assert_eq!(given, "4d"),
        other => panic!("unexpected {:?}", other),
    }
    assert_eq!(fs.operations().len(), before);
    assert!(!fs.contains(&path(&["tmp", "ws", "g"])));
}

#[test]
fn materialize_refuses_missing_parent() {
    let mut fs = template_fs();
    let e = materialize(&mut fs, &path(&["tmp", "nope"]), &"g".to_string(), "2d", &dev_context()).unwrap_err();
    assert!(matches!(e, MaterializeError::InvalidParent { .. }));
    let e = materialize(&mut fs, &path(&["app", "src", "2d-game-boilerplate", "main.js"]), &"g".to_string(), "2d", &dev_context()).unwrap_err();
    assert!(matches!(e, MaterializeError::InvalidParent { .. }));
}

#[test]
fn materialize_inside_template_is_an_io_error() {
    let mut fs = template_fs();
    let parent = path(&["app", "src", "2d-game-boilerplate"]);
    let e = materialize(&mut fs, &parent, &"nested".to_string(), "2d", &dev_context()).unwrap_err();
    match e {
        MaterializeError::Io(io) => assert_eq!(io.cause, FsFault::Overlapping),
        other => panic!("unexpected {:?}", other),
    }
    assert!(fs.is_dir(&path(&["app", "src", "2d-game-boilerplate", "nested"])));
}

#[test]
fn replaying_the_log_reproduces_the_project() {
    let mut fs = template_fs();
    let start = fs.operations().len();
    materialize(&mut fs, &path(&["tmp", "ws"]), &"myGame".to_string(), "2d", &dev_context()).unwrap();
    let mut copy = template_fs();
    for op in &fs.operations()[start..] {
        match op {
            FsOp::CreateDir(p) => copy.create_dir(p).unwrap(),
            FsOp::WriteFile(p, bytes) => copy.write_file(p, bytes.clone()).unwrap(),
        }
    }
    let target = path(&["tmp", "ws", "myGame"]);
    assert_eq!(files_below(&copy, &target), files_below(&fs, &target));
    assert_eq!(dirs_below(&copy, &target), dirs_below(&fs, &target));
    assert_eq!(files_below(&copy, &target).len(), 3);
}

#[test]
fn three_d_template_is_found_separately() {
    let mut fs = template_fs();
    put(&mut fs, &["app", "src", "3d-game-boilerplate", "scene.js"], b"scene");
    let r = materialize(&mut fs, &path(&["tmp", "ws"]), &"world".to_string(), "3d", &dev_context());
    assert_eq!(r.unwrap(), "/tmp/ws/world");
    assert_eq!(fs.read_file(&path(&["tmp", "ws", "world", "scene.js"])), Ok(b"scene".to_vec()));
    assert!(!fs.contains(&path(&["tmp", "ws", "world", "index.html"])));
}
