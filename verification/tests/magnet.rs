use leech::magnet::Magnet;

#[test]
fn new() {
    let link = "magnet:?xt=urn:btih:99E0511CCB7622664F09B6CD16AAB10AC9DB7104\
        &dn=Murder+in+the+First+S03E02+HDTV+x264+LOL\
        &tr=udp://tracker.coppersurfer.tk:6969/announce\
        &tr=udp://tracker.leechers-paradise.org:6969\
        &tr=udp://open.demonii.com:1337";
    let magnet = Magnet::new(link).unwrap();
    println!("xt is {}", magnet.xt);
    println!("dn is {}", magnet.dn);
    for tr in &magnet.tr {
        println!("tr is {}", tr);
    }
    assert_eq!("urn:btih:99E0511CCB7622664F09B6CD16AAB10AC9DB7104", magnet.xt);
    assert_eq!("Murder+in+the+First+S03E02+HDTV+x264+LOL", magnet.dn);
    assert_eq!("udp://tracker.coppersurfer.tk:6969/announce", magnet.tr[0]);
    assert_eq!("udp://tracker.leechers-paradise.org:6969", magnet.tr[1]);
    assert_eq!("udp://open.demonii.com:1337", magnet.tr[2]);
}

#[test]
fn magnet_without_scheme_is_refused() {
    assert_eq!(Magnet::new("http://example.com").err(), Some("Link should start with 'magnet:?'"));
}

#[test]
fn magnet_parameter_without_value_is_refused() {
    assert_eq!(Magnet::new("magnet:?xt").err(), Some("Invalid Magnet Link!"));
    assert_eq!(Magnet::new("magnet:?").err(), Some("Invalid Magnet Link!"));
    assert_eq!(Magnet::new("magnet:?xt=a&").err(), Some("Invalid Magnet Link!"));
}

#[test]
fn magnet_last_topic_wins_and_value_ends_at_second_equals() {
    let m = Magnet::new("magnet:?xt=a&xt=b=c&zz=9").unwrap();
    assert_eq!(m.xt, "b");
    assert_eq!(m.dn, "");
    assert!(m.tr.is_empty());
}

#[test]
fn magnet_parameters_end_where_the_scheme_stands_again() {
    let m = Magnet::new("magnet:?dn=xmagnet:?dn=y").unwrap();
    assert_eq!(m.dn, "x");
}
