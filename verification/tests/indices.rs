use grizol::device_id::DeviceId;
use grizol::indices::{FolderDevice, GrizolIndices};
use grizol::syncthing::{FileInfo, Index};
use grizol::wire::Message;

fn file(name: &str, size: i64) -> FileInfo {
    let mut f = FileInfo::empty();
    f.name = name.to_string();
    f.size = size;
    f
}

fn names(index: &Index) -> Vec<(String, i64)> {
    let mut names: Vec<(String, i64)> =
        index.files.iter().map(|f| (f.name.clone(), f.size)).collect();
    names.sort();
    names
}

#[test]
fn an_index_is_given_back() {
    let device = DeviceId::from_certificate(b"a");
    let key = FolderDevice { folder: "f".to_string(), device_id: device };
    let mut indices = GrizolIndices::default();
    assert!(indices.index(&key).is_none());

    let index = Index { folder: "f".to_string(), files: vec![file("x", 1), file("y", 2)] };
    assert!(indices.insert(device, index).is_none());
    assert_eq!(
        names(&indices.index(&key).unwrap()),
        vec![("x".to_string(), 1), ("y".to_string(), 2)]
    );
    let other = FolderDevice {
        folder: "f".to_string(),
        device_id: DeviceId::from_certificate(b"b"),
    };
    assert!(indices.index(&other).is_none());
}

#[test]
fn files_are_put_in_and_taken_out() {
    let device = DeviceId::from_certificate(b"a");
    let key = FolderDevice { folder: "f".to_string(), device_id: device };
    let mut indices = GrizolIndices::default();
    indices.insert(device, Index { folder: "f".to_string(), files: vec![file("x", 1)] });
    indices.insert_file_info("f", &device, vec![file("x", 5), file("z", 3)]);
    assert_eq!(
        names(&indices.index(&key).unwrap()),
        vec![("x".to_string(), 5), ("z".to_string(), 3)]
    );
    assert_eq!(indices.remove_file_info("f", &device, "x").unwrap().size, 5);
    assert!(indices.remove_file_info("f", &device, "x").is_none());
    assert!(indices.remove_file_info("g", &device, "z").is_none());
    assert_eq!(names(&indices.index(&key).unwrap()), vec![("z".to_string(), 3)]);
}
