use grizol::bep_state::{conflict_time, BepState, Removal, SequenceLookup};
use grizol::device_id::DeviceId;
use grizol::statements::{Query, Statement, Value};
use grizol::syncthing::{BlockInfo, Counter, FileInfo, Vector};
use grizol::wire::Message;

const SECS: i64 = 97445;

/// The tables, with a text for each value of a row.
struct Tables {
    files: Vec<Vec<String>>,
    versions: Vec<Vec<String>>,
    blocks: Vec<Vec<String>>,
}

impl Tables {
    fn execute(&mut self, statements: Vec<Statement>) {
        for s in statements {
            let v: Vec<String> = s
                .values
                .iter()
                .map(|x| match x {
                    Value::Text(t) => t.clone(),
                    other => format!("{:?}", other),
                })
                .collect();
            match s.query {
                Query::InsertFile => {
                    self.files.retain(|f| f[..3] != v[..3]);
                    self.files.push(v);
                }
                Query::InsertVersion => {
                    if !self.versions.contains(&v) {
                        self.versions.push(v);
                    }
                }
                Query::InsertBlock => {
                    if !self.blocks.iter().any(|b| b[..6] == v[..6]) {
                        self.blocks.push(v);
                    }
                }
                Query::DeleteFile => {
                    self.files.retain(|f| f[..3] != v[..3]);
                    self.versions.retain(|f| f[..3] != v[..3]);
                    self.blocks.retain(|b| b[1] != v[0] || b[2] != v[1] || b[0] != v[2]);
                }
                Query::RenameFile => {
                    for f in self.files.iter_mut().chain(self.versions.iter_mut()) {
                        if f[..3] == v[1..4] {
                            f[2] = v[0].clone();
                        }
                    }
                    for b in self.blocks.iter_mut() {
                        if b[1] == v[1] && b[2] == v[2] && b[0] == v[3] {
                            b[0] = v[0].clone();
                        }
                    }
                }
                Query::Begin | Query::End => {}
                other => panic!("{:?}", other),
            }
        }
    }

    fn counters(&self, name: &str) -> Vec<String> {
        self.versions.iter().filter(|v| v[2] == name).map(|v| v[4].clone()).collect()
    }

    fn statuses(&self, name: &str) -> Vec<(String, String)> {
        self.blocks
            .iter()
            .filter(|b| b[0] == name)
            .map(|b| (b[3].clone(), b[7].clone()))
            .collect()
    }

    fn names(&self) -> Vec<String> {
        self.files.iter().map(|f| f[2].clone()).collect()
    }
}

fn device() -> DeviceId {
    DeviceId::from_certificate(b"device")
}

fn file(name: &str, counter: u64, offset: i64) -> FileInfo {
    let mut f = FileInfo::empty();
    f.name = name.to_string();
    f.version = Some(Vector { counters: vec![Counter { id: 1, value: counter }] });
    f.blocks = vec![BlockInfo { offset, size: 5, hash: vec![7; 32], weak_hash: 9 }];
    f
}

/// Two files, the block of the first one stored.
fn filled(state: &mut BepState) -> Tables {
    state.set_sequence(SequenceLookup::Found(0));
    let mut t = Tables { files: vec![], versions: vec![], blocks: vec![] };
    let files = vec![file("a", 1, 0), file("b", 2, 0)];
    t.execute(state.insert_file_info("f", &device(), &files).unwrap());
    t.blocks[0][7] = "stored".to_string();
    t
}

fn block(offset: i64, status: &str) -> (String, String) {
    (format!("Int({})", offset), status.to_string())
}

#[test]
fn replacing_files_leaves_exactly_the_new_ones() {
    let mut state = BepState::new();
    let mut t = filled(&mut state);
    let mut gone = file("b", 8, 30);
    gone.deleted = true;
    let files = vec![file("a", 7, 10), gone, file("c", 9, 20)];
    let start =
        BepState::replace_file_info_start("f", &device(), &files, &Removal::Delete).unwrap();
    t.execute(start);
    t.execute(state.rm_replace_file_info("f", &device(), &files).unwrap());
    assert_eq!(t.names(), vec!["b", "a", "c"]);
    assert_eq!(t.counters("a"), vec!["Int(7)"]);
    assert_eq!(t.counters("b"), vec!["Int(2)"]);
    assert_eq!(t.statuses("a"), vec![block(10, "Int(0)")]);
    assert_eq!(t.statuses("b"), vec![block(0, "Int(0)")]);
    assert_eq!(t.statuses("c"), vec![block(20, "Int(0)")]);
    assert_eq!(t.files[1][12], "Int(3)");
    assert_eq!(t.files[2][12], "Int(4)");
}

#[test]
fn a_renamed_file_lives_on_under_its_new_name() {
    let mut state = BepState::new();
    let mut t = filled(&mut state);
    let files = vec![file("a", 7, 10)];
    let removal = Removal::Rename(vec![conflict_time(SECS).unwrap()]);
    t.execute(BepState::replace_file_info_start("f", &device(), &files, &removal).unwrap());
    let (statements, renamed) =
        state.replace_file_info("f", &device(), &files, &removal).unwrap();
    t.execute(statements);
    let new_name = renamed[0].1.clone();
    assert_eq!(t.names(), vec![new_name.as_str(), "b", "a"]);
    assert_eq!(t.counters(&new_name), vec!["Int(1)"]);
    assert_eq!(t.statuses(&new_name), vec![block(0, "stored")]);
    assert_eq!(t.counters("a"), vec!["Int(7)"]);
    assert_eq!(t.statuses("a"), vec![block(10, "Int(0)")]);
    assert_eq!(t.counters("b"), vec!["Int(2)"]);
}

#[test]
fn inserting_files_takes_nothing_away() {
    let mut state = BepState::new();
    let mut t = filled(&mut state);
    let mut again = file("a", 7, 10);
    again.blocks.push(BlockInfo { offset: 0, size: 5, hash: vec![7; 32], weak_hash: 9 });
    t.execute(state.insert_file_info("f", &device(), &vec![again]).unwrap());
    assert_eq!(t.names(), vec!["b", "a"]);
    assert_eq!(t.counters("a"), vec!["Int(1)", "Int(7)"]);
    assert_eq!(t.statuses("a"), vec![block(0, "stored"), block(10, "Int(0)")]);
    assert_eq!(t.statuses("b"), vec![block(0, "Int(0)")]);
}
