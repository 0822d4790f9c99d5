use axii::hook::{absolute_jump, trampoline_patch};
use axii::plugins::{has_dll_extension, plugin_indices};
use axii::steam::{AppManifest, AppState, Entry, Folders, Library};
use axii::wide::wide_nul;

#[test]
fn absolute_jump_bytes() {
    let b = absolute_jump(0x1122_3344_5566_7788);
    assert_eq!(b, [0xFF, 0x25, 0, 0, 0, 0, 0x88, 0x77, 0x66, 0x55, 0x44, 0x33, 0x22, 0x11]);
    assert_eq!(u64::from_le_bytes(b[6..14].try_into().unwrap()), 0x1122_3344_5566_7788);
}

#[test]
fn trampoline_layout() {
    let site = 0x1000usize;
    let stub = 0x2000usize;
    let b = trampoline_patch(site, 0xAABB_CCDD_EEFF_0011, stub);
    assert_eq!(&b[0..3], &[0x48, 0xB8, 0x00]);
    assert_eq!(u64::from_le_bytes(b[3..11].try_into().unwrap()), 0xAABB_CCDD_EEFF_0011);
    let rel = u32::from_le_bytes(b[11..15].try_into().unwrap());
    assert_eq!(rel, (stub as u32).wrapping_sub(site as u32 + 15));
    assert_eq!(b[15], 0);
}

#[test]
fn trampoline_backward_displacement_wraps() {
    let b = trampoline_patch(0x2000, 0, 0x1000);
    let rel = u32::from_le_bytes(b[11..15].try_into().unwrap());
    assert_eq!(rel, 0x1000usize.wrapping_sub(0x2000 + 15) as u32);
    assert_eq!(rel, 0xFFFF_EFF1);
}

#[test]
fn wide_names() {
    assert_eq!(wide_nul("TestFunction"), "TestFunction".encode_utf16().chain(Some(0)).collect::<Vec<u16>>());
    assert_eq!(wide_nul(""), vec![0]);
    assert_eq!(wide_nul("a\u{1F600}é"), vec![0x61, 0xD83D, 0xDE00, 0xE9, 0]);
}

#[test]
fn dll_extension() {
    assert!(has_dll_extension(b"roach.dll"));
    assert!(has_dll_extension(b"ROACH.DLL"));
    assert!(has_dll_extension(b"a.b.DlL"));
    assert!(!has_dll_extension(b".dll"));
    assert!(!has_dll_extension(b"roach.dll.bak"));
    assert!(!has_dll_extension(b"roachdll"));
    assert!(!has_dll_extension(b"roach.dl"));
    assert!(!has_dll_extension(b".."));
    assert!(!has_dll_extension(b""));
}

#[test]
fn plugin_selection_keeps_order() {
    let names: Vec<Vec<u8>> = ["a.dll", "readme.txt", "b.DLL", ".dll", "c.dll"].iter().map(|s| s.as_bytes().to_vec()).collect();
    assert_eq!(plugin_indices(&names), vec![0, 2, 4]);
    assert_eq!(plugin_indices(&Vec::new()), Vec::<usize>::new());
}

fn entry(path: &str, apps: &[&str]) -> Entry {
    Entry {
        path: path.to_string(),
        apps: apps.iter().map(|a| (a.to_string(), "1000".to_string())).collect(),
    }
}

#[test]
fn steam_app_folder() {
    let lib = Library {
        folders: Folders(vec![
            (0, entry("C:\\Steam", &["10", "20"])),
            (1, entry("D:\\Games", &["292030"])),
            (2, entry("E:\\More", &["292030"])),
        ]),
    };
    assert_eq!(lib.app_folder("292030").unwrap().path, "D:\\Games");
    assert_eq!(lib.app_folder("20").unwrap().path, "C:\\Steam");
    assert!(lib.app_folder("1").is_none());
    assert!(lib.folders.0[0].1.has_app("10"));
    assert!(!lib.folders.0[0].1.has_app("292030"));
}

#[test]
fn manifest_file_name() {
    assert_eq!(AppManifest::file_name("292030"), "appmanifest_292030.acf");
    let m = AppManifest { app_state: AppState { install_dir: "The Witcher 3".to_string() } };
    assert_eq!(m.app_state.install_dir, "The Witcher 3");
}
