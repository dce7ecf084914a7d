use libpt::source::{DataSource, MemorySource};

#[test]
fn a_source_delivers_full_lines_and_then_the_rest() {
    let data: Vec<u8> = (0..40u8).collect();
    let mut source = MemorySource::new(data.clone(), true);
    let mut line = [0xeeu8; 16];
    assert_eq!(source.remaining(), 40);
    assert_eq!(source.read(&mut line).unwrap(), 16);
    assert_eq!(line.to_vec(), data[0..16].to_vec());
    assert_eq!(source.read(&mut line).unwrap(), 16);
    assert_eq!(line.to_vec(), data[16..32].to_vec());
    assert_eq!(source.read(&mut line).unwrap(), 8);
    assert_eq!(line[0..8].to_vec(), data[32..40].to_vec());
    assert_eq!(source.remaining(), 0);
    assert_eq!(source.read(&mut line).unwrap(), 0);
    assert_eq!(source.read(&mut line).unwrap(), 0);
}

#[test]
fn an_empty_source_is_at_its_end() {
    let mut source = MemorySource::new(Vec::new(), true);
    let mut line = [0u8; 16];
    assert_eq!(source.remaining(), 0);
    assert_eq!(source.read(&mut line).unwrap(), 0);
}

#[test]
fn a_skip_moves_the_cursor() {
    let data: Vec<u8> = (0..40u8).collect();
    let mut source = MemorySource::new(data.clone(), true);
    let mut line = [0u8; 16];
    source.skip(3).unwrap();
    assert_eq!(source.remaining(), 37);
    assert_eq!(source.read(&mut line).unwrap(), 16);
    assert_eq!(line.to_vec(), data[3..19].to_vec());
    source.skip(0).unwrap();
    assert_eq!(source.remaining(), 21);
    source.skip(20).unwrap();
    assert_eq!(source.read(&mut line).unwrap(), 1);
    assert_eq!(line[0], 39);
}

#[test]
fn a_skip_beyond_the_end_leads_to_the_end() {
    let mut source = MemorySource::new(vec![1, 2, 3], true);
    source.skip(usize::MAX).unwrap();
    assert_eq!(source.remaining(), 0);
    let mut line = [0u8; 16];
    assert_eq!(source.read(&mut line).unwrap(), 0);
}

#[test]
fn a_source_without_cursor_stays_where_it_is() {
    let mut source = MemorySource::new(vec![1, 2, 3], false);
    assert!(source.skip(2).is_ok());
    assert!(source.skip(usize::MAX).is_ok());
    assert_eq!(source.remaining(), 3);
    let mut line = [0u8; 16];
    assert_eq!(source.read(&mut line).unwrap(), 3);
    assert_eq!(line[0..3].to_vec(), vec![1, 2, 3]);
}
