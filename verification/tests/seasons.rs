use treehouse::seasons::Season;

#[test]
fn all_the_seasons() {
    assert_eq!(Season::on(0, 0), None);
    assert_eq!(Season::on(1, 1), Some(Season::Winter));
    assert_eq!(Season::on(1, 15), Some(Season::Winter));
    assert_eq!(Season::on(1, 31), Some(Season::Winter));
    assert_eq!(Season::on(2, 1), Some(Season::Winter));
    assert_eq!(Season::on(2, 28), Some(Season::Winter));
    assert_eq!(Season::on(2, 29), Some(Season::Winter));
    assert_eq!(Season::on(3, 1), Some(Season::Winter));
    assert_eq!(Season::on(3, 20), Some(Season::Winter));
    assert_eq!(Season::on(3, 21), Some(Season::Spring));
    assert_eq!(Season::on(3, 22), Some(Season::Spring));
    assert_eq!(Season::on(4, 1), Some(Season::Spring));
    assert_eq!(Season::on(4, 30), Some(Season::Spring));
    assert_eq!(Season::on(5, 1), Some(Season::Spring));
    assert_eq!(Season::on(5, 31), Some(Season::Spring));
    assert_eq!(Season::on(6, 1), Some(Season::Spring));
    assert_eq!(Season::on(6, 21), Some(Season::Spring));
    assert_eq!(Season::on(6, 22), Some(Season::Summer));
    assert_eq!(Season::on(6, 30), Some(Season::Summer));
    assert_eq!(Season::on(7, 1), Some(Season::Summer));
    assert_eq!(Season::on(7, 31), Some(Season::Summer));
    assert_eq!(Season::on(8, 1), Some(Season::Summer));
    assert_eq!(Season::on(8, 31), Some(Season::Summer));
    assert_eq!(Season::on(9, 1), Some(Season::Summer));
    assert_eq!(Season::on(9, 22), Some(Season::Summer));
    assert_eq!(Season::on(9, 23), Some(Season::Autumn));
    assert_eq!(Season::on(9, 30), Some(Season::Autumn));
    assert_eq!(Season::on(10, 1), Some(Season::Autumn));
    assert_eq!(Season::on(10, 31), Some(Season::Autumn));
    assert_eq!(Season::on(11, 1), Some(Season::Autumn));
    assert_eq!(Season::on(11, 30), Some(Season::Autumn));
    assert_eq!(Season::on(12, 1), Some(Season::Autumn));
    assert_eq!(Season::on(12, 21), Some(Season::Autumn));
    assert_eq!(Season::on(12, 22), Some(Season::Winter));
    assert_eq!(Season::on(12, 22), Some(Season::Winter));
    assert_eq!(Season::on(12, 31), Some(Season::Winter));
    assert_eq!(Season::on(12, 32), None);
    assert_eq!(Season::on(21, 37), None);
}

#[test]
fn season_boundaries_are_inclusive() {
    assert_eq!(Season::on(3, 20), Some(Season::Winter));
    assert_eq!(Season::on(3, 21), Some(Season::Spring));
    assert_eq!(Season::on(13, 1), None);
    assert_eq!(Season::on(1, 0), None);
}

#[test]
fn today_has_a_season() {
    assert!(Season::current().is_some());
}
