use std::time::Duration;

use term_test::scarab::{
    decode_response, ControlRequest, CellAttributes, CellFlags, IpcError, ScarabConfig, ScarabSharedMemory, SCARAB_MAGIC, SCARAB_VERSION,
};

#[test]
fn test_default_config() {
    let config = ScarabConfig::default();
    assert_eq!(config.socket_path, "/tmp/scarab-daemon.sock");
    assert_eq!(config.shm_path, "/scarab_shm_v1");
    assert_eq!(config.image_shm_path, Some("/scarab_img_v1".to_string()));
    assert_eq!(config.dimensions, Some((80, 24)));
    assert!(!config.prompt_patterns.is_empty());
}

#[test]
fn test_config_builder() {
    let config = ScarabConfig::builder()
        .socket_path("/custom/socket.sock")
        .shm_path("/custom_shm")
        .dimensions(120, 40)
        .prompt_patterns(vec![">>> ".to_string()])
        .build();
    assert_eq!(config.socket_path, "/custom/socket.sock");
    assert_eq!(config.shm_path, "/custom_shm");
    assert_eq!(config.dimensions, Some((120, 40)));
    assert_eq!(config.prompt_patterns, vec![">>> ".to_string()]);
}

#[test]
fn test_add_prompt_pattern() {
    let config = ScarabConfig::builder().add_prompt_pattern(">>> ").add_prompt_pattern("... ").build();
    assert!(config.prompt_patterns.len() >= 2);
    assert!(config.prompt_patterns.contains(&">>> ".to_string()));
    assert!(config.prompt_patterns.contains(&"... ".to_string()));
}

#[test]
fn test_scarab_magic_constants() {
    assert_eq!(SCARAB_MAGIC, 0x5343_5241);
    assert_eq!(SCARAB_VERSION, 1);
}

#[test]
fn test_cell_attributes_export() {
    let attrs = CellAttributes::default();
    assert_eq!(attrs.fg, 0);
    assert_eq!(attrs.bg, 0);
}

#[test]
fn test_cell_flags_export() {
    let flags = CellFlags::bold() | CellFlags::italic();
    assert!(flags.contains(CellFlags::bold()));
    assert!(flags.contains(CellFlags::italic()));
}

#[test]
fn test_default_config_values() {
    let config = ScarabConfig::default();
    assert_eq!(config.socket_path, "/tmp/scarab-daemon.sock");
    assert_eq!(config.shm_path, "/scarab_shm_v1");
    assert_eq!(config.image_shm_path, Some("/scarab_img_v1".to_string()));
    assert_eq!(config.dimensions, Some((80, 24)));
    assert_eq!(config.connect_timeout, Duration::from_secs(5));
    assert_eq!(config.default_timeout, Duration::from_secs(10));
}

#[test]
fn test_default_prompt_patterns() {
    let config = ScarabConfig::default();
    assert!(config.prompt_patterns.contains(&"$ ".to_string()));
    assert!(config.prompt_patterns.contains(&"# ".to_string()));
    assert!(config.prompt_patterns.contains(&"> ".to_string()));
}

#[test]
fn test_config_builder_socket_path() {
    let config = ScarabConfig::builder().socket_path("/custom/scarab.sock").build();
    assert_eq!(config.socket_path, "/custom/scarab.sock");
}

#[test]
fn test_config_builder_shm_path() {
    let config = ScarabConfig::builder().shm_path("/custom_shm").build();
    assert_eq!(config.shm_path, "/custom_shm");
}

#[test]
fn test_config_builder_image_shm_path() {
    let config = ScarabConfig::builder().image_shm_path("/custom_img_shm").build();
    assert_eq!(config.image_shm_path, Some("/custom_img_shm".to_string()));
}

#[test]
fn test_config_builder_dimensions() {
    let config = ScarabConfig::builder().dimensions(120, 40).build();
    assert_eq!(config.dimensions, Some((120, 40)));
}

#[test]
fn test_config_builder_timeouts() {
    let config = ScarabConfig::builder()
        .connect_timeout(Duration::from_secs(15))
        .default_timeout(Duration::from_secs(30))
        .build();
    assert_eq!(config.connect_timeout, Duration::from_secs(15));
    assert_eq!(config.default_timeout, Duration::from_secs(30));
}

#[test]
fn test_config_builder_prompt_patterns() {
    let config = ScarabConfig::builder().prompt_patterns(vec![">>> ".to_string(), "... ".to_string()]).build();
    assert_eq!(config.prompt_patterns.len(), 2);
    assert!(config.prompt_patterns.contains(&">>> ".to_string()));
    assert!(config.prompt_patterns.contains(&"... ".to_string()));
}

#[test]
fn test_config_builder_add_prompt_pattern() {
    let config = ScarabConfig::builder().add_prompt_pattern("custom> ").build();
    assert!(config.prompt_patterns.contains(&"custom> ".to_string()));
    assert!(config.prompt_patterns.contains(&"$ ".to_string()));
}

#[test]
fn test_config_builder_chaining() {
    let config = ScarabConfig::builder()
        .socket_path("/test.sock")
        .shm_path("/test_shm")
        .dimensions(100, 30)
        .connect_timeout(Duration::from_secs(20))
        .default_timeout(Duration::from_secs(60))
        .add_prompt_pattern("test> ")
        .build();
    assert_eq!(config.socket_path, "/test.sock");
    assert_eq!(config.shm_path, "/test_shm");
    assert_eq!(config.dimensions, Some((100, 30)));
    assert_eq!(config.connect_timeout, Duration::from_secs(20));
    assert_eq!(config.default_timeout, Duration::from_secs(60));
    assert!(config.prompt_patterns.contains(&"test> ".to_string()));
}

fn push16(v: &mut Vec<u8>, x: u16) {
    v.extend_from_slice(&x.to_le_bytes());
}

fn push32(v: &mut Vec<u8>, x: u32) {
    v.extend_from_slice(&x.to_le_bytes());
}

/// A 3 x 2 snapshot holding "ab " / "xyz", cursor at (1, 2), sequence 8.
fn sample_snapshot() -> Vec<u8> {
    let mut v = Vec::new();
    push32(&mut v, SCARAB_MAGIC);
    push32(&mut v, SCARAB_VERSION);
    push16(&mut v, 3);
    push16(&mut v, 2);
    push16(&mut v, 1);
    push16(&mut v, 2);
    push32(&mut v, 8);
    for (i, ch) in "ab xyz".chars().enumerate() {
        push32(&mut v, ch as u32);
        push32(&mut v, 0x1000_0000 + i as u32);
        push32(&mut v, 0x2000_0000 + i as u32);
        push16(&mut v, if i == 4 { 0x05 } else { 0 });
        push16(&mut v, 0);
    }
    v
}

#[test]
fn snapshot_accessors() {
    let shm = ScarabSharedMemory::open(sample_snapshot()).unwrap();
    assert_eq!(shm.dimensions(), (3, 2));
    assert_eq!(shm.cursor_position(), (1, 2));
    assert_eq!(shm.sequence_number(), 8);
    assert_eq!(shm.grid_contents().unwrap(), "ab \nxyz");
    assert_eq!(shm.cell_at(1, 1).unwrap(), 'y');
    assert_eq!(shm.contains("b \nx"), Ok(true));
    assert_eq!(shm.contains("abc"), Ok(false));
    let attrs = shm.cell_attrs_at(1, 1).unwrap();
    assert_eq!(attrs, CellAttributes { fg: 0x1000_0004, bg: 0x2000_0004, flags: 0x05 });
    let flags = CellFlags::from_bits_truncate(attrs.flags);
    assert!(flags.contains(CellFlags::bold()));
    assert!(flags.contains(CellFlags::underline()));
    assert!(!flags.contains(CellFlags::italic()));
    assert_eq!(shm.row_attrs(0).unwrap().len(), 3);
    assert!(matches!(shm.cell_at(2, 0), Err(IpcError::InvalidData(_))));
    assert!(matches!(shm.row_attrs(2), Err(IpcError::InvalidData(_))));
}

#[test]
fn snapshot_validation_errors() {
    let mut bad_magic = sample_snapshot();
    bad_magic[0] ^= 1;
    assert!(matches!(ScarabSharedMemory::open(bad_magic), Err(IpcError::InvalidData(_))));
    let mut bad_version = sample_snapshot();
    bad_version[4] = 2;
    assert!(matches!(ScarabSharedMemory::open(bad_version), Err(IpcError::InvalidData(_))));
    let mut short = sample_snapshot();
    short.truncate(short.len() - 1);
    assert!(matches!(ScarabSharedMemory::open(short), Err(IpcError::InvalidData(_))));
    assert!(matches!(ScarabSharedMemory::open(vec![0; 10]), Err(IpcError::InvalidData(_))));
}

#[test]
fn snapshot_refresh_and_bad_cells() {
    let mut shm = ScarabSharedMemory::open(sample_snapshot()).unwrap();
    let mut next = sample_snapshot();
    next[16] = 10;
    next[20] = b'q';
    assert!(shm.refresh(next).is_ok());
    assert_eq!(shm.sequence_number(), 10);
    assert_eq!(shm.cell_at(0, 0).unwrap(), 'q');
    assert!(shm.refresh(vec![1, 2, 3]).is_err());
    assert_eq!(shm.sequence_number(), 10);
    let mut surrogate = sample_snapshot();
    surrogate[20..24].copy_from_slice(&0xD800u32.to_le_bytes());
    let s = ScarabSharedMemory::open(surrogate).unwrap();
    assert!(matches!(s.grid_contents(), Err(IpcError::InvalidData(_))));
    assert!(matches!(s.cell_at(0, 0), Err(IpcError::InvalidData(_))));
}

#[test]
fn snapshot_color_scan() {
    let shm = ScarabSharedMemory::open(sample_snapshot()).unwrap();
    let scan = shm.scan_colors_in_region(0, 1, 5, 1);
    assert_eq!(scan.cells_scanned, 2);
    assert_eq!(scan.foreground_colors, vec![0x1000_0001, 0x1000_0004]);
    assert_eq!(scan.background_colors, vec![0x2000_0001, 0x2000_0004]);
    let all = shm.scan_colors_in_region(0, 0, 1, 2);
    assert_eq!(all.cells_scanned, 6);
    assert_eq!(all.unique_foreground_count(), 6);
    let outside = shm.scan_colors_in_region(5, 5, 9, 9);
    assert_eq!(outside.cells_scanned, 0);
    assert_eq!(outside.unique_background_count(), 0);
}

#[test]
fn control_frames() {
    assert_eq!(ControlRequest::Refresh.encode().unwrap(), vec![1, 0, 0, 0, 3]);
    assert_eq!(
        ControlRequest::Resize { cols: 300, rows: 2 }.encode().unwrap(),
        vec![5, 0, 0, 0, 2, 44, 1, 2, 0]
    );
    assert_eq!(ControlRequest::Input(b"ls\n".to_vec()).encode().unwrap(), vec![4, 0, 0, 0, 1, b'l', b's', b'\n']);
    assert_eq!(decode_response(&[1, 0, 0, 0, 0]), Ok(()));
    assert!(matches!(decode_response(&[3, 0, 0, 0, 1, b'n', b'o']), Err(IpcError::ProtocolError(_))));
    assert!(matches!(decode_response(&[9, 0, 0, 0, 0]), Err(IpcError::ProtocolError(_))));
    assert!(matches!(decode_response(&[1, 0, 0, 0, 7]), Err(IpcError::ProtocolError(_))));
    assert!(matches!(decode_response(&[0, 0]), Err(IpcError::ProtocolError(_))));
}
