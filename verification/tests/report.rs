use z_primitive_roots::producer::{Producer, Range};
use z_primitive_roots::report::{file_name, header, push_decimal, push_list, render_row};
use z_primitive_roots::worker::{process_range, Record};

fn text(bytes: Vec<u8>) -> String {
    String::from_utf8(bytes).unwrap()
}

#[test]
fn decimal_digits() {
    for n in [0u64, 1, 9, 10, 11, 99, 100, 101, 4_294_967_295, 4_294_967_296, u64::MAX] {
        let mut out = Vec::new();
        push_decimal(&mut out, n);
        assert_eq!(text(out), format!("{}", n));
    }
}

#[test]
fn decimal_digits_are_appended() {
    let mut out = vec![b'x'];
    push_decimal(&mut out, 120);
    push_decimal(&mut out, 7);
    assert_eq!(text(out), "x1207");
}

#[test]
fn lists_in_brackets() {
    for list in [vec![], vec![0u64], vec![14], vec![2, 3], vec![18, 7, 1000, u64::MAX]] {
        let mut out = Vec::new();
        push_list(&mut out, &list);
        assert_eq!(text(out), format!("{:?}", list));
    }
}

#[test]
fn header_row() {
    assert_eq!(text(header()), "p\tzprs\tn_zprs\n");
}

#[test]
fn rows_of_records() {
    assert_eq!(text(render_row(&Record { p: 29, zprs: vec![14] })), "29\t[14]\t1\n");
    assert_eq!(text(render_row(&Record { p: 5, zprs: vec![] })), "5\t[]\t0\n");
    assert_eq!(text(render_row(&Record { p: 101, zprs: vec![2, 30, 4] })), "101\t[2, 30, 4]\t3\n");
    let rec = Record { p: 103, zprs: vec![43] };
    assert_eq!(
        text(render_row(&rec)),
        format!("{:?}\t{:?}\t{}\n", rec.p, rec.zprs, rec.zprs.len())
    );
}

#[test]
fn file_names() {
    assert_eq!(text(file_name(1, 6)), "zprs_1_6.tsv");
    assert_eq!(text(file_name(0, 0)), "zprs_0_0.tsv");
    assert_eq!(text(file_name(1000, 1500)), format!("zprs_{}_{}.tsv", 1000, 1500));
}

#[test]
fn file_of_a_range() {
    let mut file = text(header());
    for rec in process_range(8, 13).records {
        file.push_str(&text(render_row(&rec)));
    }
    assert_eq!(file, "p\tzprs\tn_zprs\n19\t[]\t0\n23\t[]\t0\n29\t[14]\t1\n31\t[]\t0\n37\t[18]\t1\n");
}

#[test]
fn producer_hands_out_adjoining_ranges() {
    let mut producer = Producer::new(1, 5);
    assert_eq!(producer.next_range(), Some(Range { start: 1, stop: 6 }));
    assert_eq!(producer.next_range(), Some(Range { start: 6, stop: 11 }));
    assert_eq!(producer.next_range(), Some(Range { start: 11, stop: 16 }));
    assert_eq!(producer, Producer { cursor: 16, increment: 5 });
}

#[test]
fn producer_starts_where_it_is_told() {
    let mut producer = Producer::new(1000, 1);
    let mut starts = Vec::new();
    for _ in 0..4 {
        let range = producer.next_range().unwrap();
        assert_eq!(range.stop, range.start + 1);
        starts.push(range.start);
    }
    assert_eq!(starts, vec![1000, 1001, 1002, 1003]);
}

#[test]
fn producer_stops_at_the_last_index() {
    let mut producer = Producer::new(u64::MAX - 7, 5);
    assert_eq!(producer.next_range(), Some(Range { start: u64::MAX - 7, stop: u64::MAX - 2 }));
    assert_eq!(producer.next_range(), None);
    assert_eq!(producer.next_range(), None);
    assert_eq!(producer, Producer { cursor: u64::MAX - 2, increment: 5 });
}

#[test]
fn producer_with_empty_ranges_stays() {
    let mut producer = Producer::new(3, 0);
    assert_eq!(producer.next_range(), Some(Range { start: 3, stop: 3 }));
    assert_eq!(producer.next_range(), Some(Range { start: 3, stop: 3 }));
}

#[test]
fn producer_and_workers_cover_the_indices_once() {
    let mut producer = Producer::new(3, 4);
    let mut primes = Vec::new();
    for _ in 0..3 {
        let range = producer.next_range().unwrap();
        let out = process_range(range.start, range.stop);
        assert_eq!(out.failure, None);
        primes.extend(out.records.into_iter().map(|r| r.p));
    }
    assert_eq!(primes, vec![5, 7, 11, 13, 17, 19, 23, 29, 31, 37, 41, 43]);
}
