use kotka::twoda::CHUNK_SIZE;
use kotka::TwoDA;

#[test]
fn empty_table_has_no_chunks() {
    assert_eq!(TwoDA::new(&[]).read_data.len(), 0);
}

#[test]
fn exact_chunk_is_one_chunk() {
    let data = vec![7u8; CHUNK_SIZE];
    let t = TwoDA::new(&data);
    assert_eq!(t.read_data.len(), 1);
    assert_eq!(t.read_data[0], data);
}

#[test]
fn remainder_goes_to_the_last_chunk() {
    let mut data: Vec<u8> = (0..CHUNK_SIZE * 2).map(|i| (i % 251) as u8).collect();
    data.push(9);
    let t = TwoDA::new(&data);
    assert_eq!(t.read_data.len(), 3);
    assert_eq!(t.read_data[1], data[CHUNK_SIZE..2 * CHUNK_SIZE].to_vec());
    assert_eq!(t.read_data[2], vec![9]);
    assert_eq!(t.read_data.concat(), data);
}
