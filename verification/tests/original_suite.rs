use dorian_test::country::Country;
use dorian_test::parse::from_text;

fn v(s: &str) -> Vec<u8> {
    s.as_bytes().to_vec()
}

// Three mutually linked French regions.
fn input_regions() -> Country {
    let text = v("Nord : 6 : Paris-Normandie\nParis : 9 : Nord-Normandie\nNormandie : 4 : Nord-Paris\n");
    let c = from_text(&text).expect("fixture parses");
    assert!(c.check_wf());
    c
}

// Four regions: A linked to B, C and D; C also linked to D.
fn input_test() -> Country {
    let text = v("A : 1 : B-C-D\nB : 2 : A\nC : 3 : A-D\nD : 4 : A-C\n");
    let c = from_text(&text).expect("fixture parses");
    assert!(c.check_wf());
    c
}

fn links_of<'a>(c: &'a Country, name: &str) -> &'a Vec<Vec<u8>> {
    let i = c.index_of_name(&v(name));
    &c.regions[i].links
}

#[test]
fn remove_link_from_region() {
    let mut country = input_regions();

    country.remove_link_from_region(&v("Nord"), &v("Paris"));
    country.remove_link_from_region(&v("Nord"), &v("Normandie"));

    assert!(!links_of(&country, "Nord").contains(&v("Paris")));
    assert!(!links_of(&country, "Nord").contains(&v("Normandie")));
}

#[test]
fn add_link_to_region() {
    let mut country = input_regions();

    country.add_link_to_region(&v("Nord"), &v("Nouvelle-Acquitaine"));

    assert!(links_of(&country, "Nord").contains(&v("Nouvelle-Acquitaine")));
}

#[test]
fn region_fuse() {
    let mut country = input_test();

    country.fuse_regions(&v("A"), &v("C"));

    assert_eq!(links_of(&country, "A-C"), &vec![v("B"), v("D")]);
    assert_eq!(links_of(&country, "B"), &vec![v("A-C")]);
    assert_eq!(links_of(&country, "D"), &vec![v("A-C")]);
}

fn check_bidir_links(country: Country) {
    for region in &country.regions {
        for other in &region.links {
            let j = country.index_of_name(other);
            assert!(country.regions[j].links.contains(&region.name));
        }
    }
}

#[test]
fn bidirectional_links() {
    check_bidir_links(input_regions());
    check_bidir_links(input_test());
}

#[test]
fn optimal_std_dev_sq() {
    let country = input_test();

    let r = country.optimal_std_dev_sq(2);
    // exactly 1.0
    assert_eq!(r.num, r.den);
}

#[test]
fn optimal_std_dev_sq2() {
    let country = input_test();
    let r = country.optimal_std_dev_sq(2);
    assert_eq!(r.num, r.den);
}

#[test]
fn optmize_with_zero_size() {
    let mut country = input_test();
    assert!(
        matches!(country.optimize3(0), Err(_)),
        "Optmizing down to 0 elements should not be possible"
    )
}
