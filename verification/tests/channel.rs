use webmetro::channel::Channel;
use webmetro::chunk::Chunk;

#[test]
fn channel_delivers_in_order() {
    let mut ch = Channel::new(4);
    ch.send(Chunk::Headers { bytes: vec![1] });
    ch.send(Chunk::ClusterBody { bytes: vec![2] });
    let (c1, p1) = ch.read_at(0);
    assert_eq!(c1.unwrap(), &Chunk::Headers { bytes: vec![1] });
    let (c2, p2) = ch.read_at(p1);
    assert_eq!(c2.unwrap(), &Chunk::ClusterBody { bytes: vec![2] });
    let (c3, p3) = ch.read_at(p2);
    assert!(c3.is_none());
    assert_eq!(p3, 2);
}

#[test]
fn slow_listener_skips_forward_without_reordering() {
    let mut ch = Channel::new(2);
    for i in 0..5u8 {
        ch.send(Chunk::ClusterBody { bytes: vec![i] });
    }
    // only the two newest chunks are retained; a listener at the start is
    // pulled forward, never backwards
    let (c, p) = ch.read_at(0);
    assert_eq!(c.unwrap(), &Chunk::ClusterBody { bytes: vec![3] });
    assert_eq!(p, 4);
    let (c, p) = ch.read_at(p);
    assert_eq!(c.unwrap(), &Chunk::ClusterBody { bytes: vec![4] });
    assert_eq!(p, 5);
}

#[test]
fn closed_channel_ends_after_drain() {
    let mut ch = Channel::new(2);
    ch.send(Chunk::Headers { bytes: vec![9] });
    ch.close();
    assert!(ch.closed_now());
    let (c, p) = ch.read_at(0);
    assert!(c.is_some());
    let (c, _) = ch.read_at(p);
    assert!(c.is_none());
}
