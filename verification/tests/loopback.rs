use pair::loopback::Loopback;

fn run(link: &mut Loopback, count: u8) -> Vec<u8> {
    let mut out = Vec::new();
    for i in 0..count {
        assert!(link.can_send_many(1));
        link.send(&[i], &mut out);
    }
    out.into_iter().map(|d| d[0]).collect()
}

#[test]
fn a_clean_link_delivers_everything_in_order() {
    let mut link = Loopback::new(0, 0);
    assert_eq!(run(&mut link, 5), vec![0, 1, 2, 3, 4]);
    assert_eq!(link.dropped(), 0);
    assert_eq!(link.reordered(), 0);
}

#[test]
fn loss_is_by_chance_but_reproducible() {
    let mut link = Loopback::new(30, 0);
    assert_eq!(run(&mut link, 12), vec![1, 2, 3, 4, 5, 6, 7, 8, 9, 10]);
    assert_eq!(link.dropped(), 2);
}

#[test]
fn reordering_holds_datagrams_back_and_flushing_lets_them_go() {
    let mut link = Loopback::new(0, 3);
    assert_eq!(run(&mut link, 12), vec![1, 0, 2, 4, 3, 5, 6, 7, 8]);
    assert_eq!(link.reordered(), 9);
    let mut rest = Vec::new();
    link.flush(&mut rest);
    assert_eq!(rest, vec![vec![9], vec![10], vec![11]]);
    link.flush(&mut rest);
    assert_eq!(rest.len(), 3, "nothing is let go twice");
}

#[test]
fn nothing_is_lost_uncounted() {
    let mut link = Loopback::new(20, 4);
    let arrived = run(&mut link, 12);
    assert_eq!(arrived, vec![1, 2, 3, 5, 4, 8]);
    assert_eq!(link.dropped(), 3);
    assert_eq!(link.reordered(), 7);
    let mut rest = Vec::new();
    link.flush(&mut rest);
    assert_eq!(arrived.len() + rest.len() + link.dropped() as usize, 12);
}

#[test]
fn total_loss_delivers_nothing() {
    let mut link = Loopback::new(100, 2);
    assert!(run(&mut link, 20).is_empty());
    assert_eq!(link.dropped(), 20);
}

#[test]
fn sending_many_is_sending_each() {
    let datagrams: Vec<Vec<u8>> = (0..12).map(|i| vec![i]).collect();
    let mut link = Loopback::new(20, 4);
    assert!(link.can_send_many(12));
    let mut out = vec![vec![99]];
    link.send_all(&datagrams, &mut out);
    let arrived: Vec<u8> = out.into_iter().map(|d| d[0]).collect();
    assert_eq!(arrived, vec![99, 1, 2, 3, 5, 4, 8]);
    assert_eq!(link.dropped(), 3);
    assert!(!Loopback::new(0, u32::MAX).can_send_many(0));
}
