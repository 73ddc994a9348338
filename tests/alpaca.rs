use alpaca::deterministic::{get_multiple, get_multiples_in_range};
use alpaca::distribution::{
    parse_dist, parse_dist_table, parse_given_dist, parse_probability, pick_custom, sample_ge,
    sample_ge_many, Distributions, Family, Rejection, Sampler, Shape, Verdict, SAMPLE_LIMIT,
};
use alpaca::dom::{
    find_references, first_match, image_reference, parse_html, record_reference, serialize_html,
    stylesheet_reference,
};
use alpaca::error::{MorphError, ParseFault};
use alpaca::morphing::{
    append_ref, finish_page, insert_objects_refs, length_order, morph_deterministic,
    morph_from_distribution, morph_page, morph_with_draws, pad_page, reference_attribute,
    run_strategy, Strategy,
};
use alpaca::objects::{parse_object_kind, Object, ObjectKind};
use alpaca::pad::{get_css_padding, get_html_padding, get_object_padding, morph_resource};
use alpaca::parsing::{
    absolute_path, expand_host, padded_reference_string, parse_target_size, uri_to_abs_fs_path,
};

struct Fixed {
    value: usize,
    draws: usize,
}

impl Sampler for Fixed {
    fn draw(&mut self) -> usize {
        self.draws += 1;
        self.value
    }

    fn name(&self) -> String {
        String::from("fixed")
    }
}

struct Cycle {
    values: Vec<usize>,
    next: usize,
}

impl Sampler for Cycle {
    fn draw(&mut self) -> usize {
        let v = self.values[self.next % self.values.len()];
        self.next += 1;
        v
    }

    fn name(&self) -> String {
        String::from("cycle")
    }
}

fn object(len: usize, kind: &str) -> Object {
    Object::from_raw(&vec![b'x'; len], kind, format!("/r{}", len))
}

#[test]
fn get_multiple_rounds_up() {
    assert_eq!(get_multiple(3, 4), 6);
    assert_eq!(get_multiple(3, 6), 6);
    assert_eq!(get_multiple(5, 0), 5);
    assert_eq!(get_multiple(1, 7), 7);
    assert_eq!(get_multiple(64, 65), 128);
}

#[test]
fn get_multiple_bounds_hold() {
    for s in 1..20usize {
        for f in 1..200usize {
            let r = get_multiple(s, f);
            assert_eq!(r % s, 0);
            assert!(r >= f);
            assert!(r < f + s);
        }
    }
}

#[test]
fn deterministic_count_rounding() {
    let mut four: Vec<Object> = (1..5).map(|i| object(i, "image/png")).collect();
    morph_deterministic(&mut four, 3, 10, 100).unwrap();
    assert_eq!(four.len(), 6);
    let mut six: Vec<Object> = (1..7).map(|i| object(i, "image/png")).collect();
    morph_deterministic(&mut six, 3, 10, 100).unwrap();
    assert_eq!(six.len(), 6);
}

#[test]
fn multiples_in_range_stay_in_range() {
    let v = get_multiples_in_range(64, 512, 10_000).unwrap();
    assert_eq!(v.len(), 10_000);
    for x in v {
        assert_eq!(x % 64, 0);
        assert!(x >= 64 && x <= 512);
    }
}

#[test]
fn multiples_in_range_refuses_bad_bounds() {
    assert_eq!(get_multiples_in_range(10, 5, 3), Err(MorphError::InvalidRange));
    assert_eq!(get_multiples_in_range(3, 10, 3), Err(MorphError::InvalidRange));
    assert_eq!(get_multiples_in_range(0, 10, 3), Err(MorphError::InvalidRange));
    assert_eq!(get_multiples_in_range(5, 5, 0), Ok(vec![]));
}

#[test]
fn sample_ge_gives_up_after_thirty_draws() {
    let mut stub = Fixed { value: 3, draws: 0 };
    let r = sample_ge(&mut stub, 4);
    assert_eq!(r, Err(MorphError::SamplingExhausted(String::from("fixed"))));
    assert_eq!(stub.draws, 30);
    assert_eq!(SAMPLE_LIMIT, 30);
}

#[test]
fn sample_ge_takes_first_draw_reaching_floor() {
    let mut stub = Fixed { value: 9, draws: 0 };
    assert_eq!(sample_ge(&mut stub, 9), Ok(9));
    assert_eq!(stub.draws, 1);
    let mut cyc = Cycle { values: vec![1, 2, 7, 3], next: 0 };
    assert_eq!(sample_ge(&mut cyc, 5), Ok(7));
    assert_eq!(cyc.next, 3);
}

#[test]
fn sample_ge_many_propagates_exhaustion() {
    let mut stub = Fixed { value: 0, draws: 0 };
    assert!(matches!(sample_ge_many(&mut stub, 1, 3), Err(MorphError::SamplingExhausted(_))));
    let mut ok = Fixed { value: 5, draws: 0 };
    assert_eq!(sample_ge_many(&mut ok, 1, 3), Ok(vec![5, 5, 5]));
    assert_eq!(sample_ge_many(&mut ok, 1, 0), Ok(vec![]));
}

#[test]
fn rejection_rule_counts_attempts() {
    let mut rule = Rejection::new(10);
    for _ in 0..29 {
        assert_eq!(rule.offer(3), Verdict::Retry);
    }
    assert_eq!(rule.offer(3), Verdict::Exhausted);
    let mut rule = Rejection::new(10);
    assert_eq!(rule.offer(10), Verdict::Accept(10));
}

#[test]
fn custom_distribution_inverse_cdf() {
    let values = [10usize, 20, 30];
    let probs = [200_000_000u64, 300_000_000, 500_000_000];
    assert_eq!(pick_custom(&values, &probs, 200_000_000), 10);
    assert_eq!(pick_custom(&values, &probs, 500_000_000), 20);
    assert_eq!(pick_custom(&values, &probs, 1_000_000_000), 30);
    assert_eq!(pick_custom(&values, &probs, 1), 10);
    // a table whose probabilities fall short gives the last value
    assert_eq!(pick_custom(&values, &[1, 1, 1], 1_000_000_000), 30);
}

#[test]
fn custom_distribution_table_parses() {
    let d = parse_dist_table("10 0.2\n20 0.3\n30 0.5\n").unwrap();
    assert_eq!(d.name, "custom");
    match d.shape {
        Shape::Custom(t) => {
            assert_eq!(t.pick(200_000_000), 10);
            assert_eq!(t.pick(500_000_000), 20);
            assert_eq!(t.pick(1_000_000_000), 30);
        }
        _ => panic!("expected a table"),
    }
    assert!(parse_dist_table("10 0.2 20 0.3 30 0.5").is_ok());
}

#[test]
fn custom_table_errors() {
    assert!(matches!(parse_dist_table("10 0.2 20"), Err(MorphError::Parse(ParseFault::Table))));
    assert!(matches!(parse_dist_table(""), Err(MorphError::Parse(ParseFault::Table))));
    assert!(matches!(parse_dist_table("x 0.2"), Err(MorphError::Parse(ParseFault::Token))));
    assert!(matches!(parse_dist_table("10 0.2.1"), Err(MorphError::Parse(ParseFault::Token))));
}

#[test]
fn probabilities_in_billionths() {
    let p = |s: &str| parse_probability(&s.chars().collect::<Vec<char>>());
    assert_eq!(p("0.2"), Some(200_000_000));
    assert_eq!(p("1"), Some(1_000_000_000));
    assert_eq!(p(".5"), Some(500_000_000));
    assert_eq!(p("0.0000000019"), Some(1));
    assert_eq!(p("."), None);
    assert_eq!(p("-0.1"), None);
}

#[test]
fn named_distributions_parse() {
    let d = parse_given_dist("Normal/1000,20.5").unwrap();
    assert_eq!(d.name, "Normal");
    match d.shape {
        Shape::Parametric { family, params } => {
            assert_eq!(family, Family::Normal);
            assert_eq!(params, vec![String::from("1000"), String::from("20.5")]);
        }
        _ => panic!("expected a family"),
    }
    assert!(parse_given_dist("Exp/0.5").is_ok());
    assert!(parse_given_dist("Poisson/3").is_ok());
    assert!(parse_given_dist("Gamma/2,1e3").is_ok());
}

#[test]
fn named_distribution_errors() {
    assert!(matches!(parse_given_dist("Normal/1"), Err(MorphError::Parse(ParseFault::Arity))));
    assert!(matches!(parse_given_dist("Foo/1"), Err(MorphError::Parse(ParseFault::UnknownName))));
    assert!(matches!(parse_given_dist("Normal1,2"), Err(MorphError::Parse(ParseFault::Shape))));
    assert!(matches!(parse_given_dist("Normal/a,b"), Err(MorphError::Parse(ParseFault::Token))));
    assert!(matches!(parse_given_dist("Exp/1,2"), Err(MorphError::Parse(ParseFault::Arity))));
}

#[test]
fn distributions_from_three_descriptions() {
    assert!(Distributions::from("Normal/5000,100", "10 0.5 20 0.5", "LogNormal/7,1").is_ok());
    assert!(parse_dist("Binomial/10,0.5").is_ok());
    assert!(matches!(
        Distributions::from("Normal/5000,100", "Zipf/1", "LogNormal/7,1"),
        Err(MorphError::Parse(ParseFault::UnknownName))
    ));
}

#[test]
fn greedy_matching_takes_smallest_feasible_draw() {
    let mut objs = vec![object(5, "image/png"), object(50, "text/css")];
    let unpadded = morph_with_draws(&mut objs, &vec![10, 53, 100]);
    assert_eq!(objs[0].target_size, Some(10));
    assert_eq!(objs[1].target_size, Some(100));
    assert_eq!(objs.len(), 3);
    assert_eq!(objs[2].kind, ObjectKind::Alpaca);
    assert_eq!(objs[2].target_size, Some(53));
    assert!(unpadded.is_empty());
}

#[test]
fn greedy_matching_reports_unpadded() {
    let mut objs = vec![object(5, "image/png"), object(50, "text/css")];
    let unpadded = morph_with_draws(&mut objs, &vec![10, 53]);
    assert_eq!(objs[0].target_size, Some(10));
    assert_eq!(objs[1].target_size, None);
    assert_eq!(objs.len(), 3);
    assert_eq!(objs[2].target_size, Some(53));
    assert_eq!(unpadded, vec![1]);
}

#[test]
fn greedy_matching_equal_need_matches() {
    let mut objs = vec![object(50, "text/css")];
    let unpadded = morph_with_draws(&mut objs, &vec![54]);
    assert_eq!(objs[0].target_size, Some(54));
    assert_eq!(objs.len(), 1);
    assert!(unpadded.is_empty());
}

#[test]
fn length_order_sorts_by_content() {
    let objs = vec![object(30, "image/png"), object(5, "image/png"), object(30, "image/png")];
    assert_eq!(length_order(&objs), vec![1, 0, 2]);
}

#[test]
fn probabilistic_strategy_with_stub_samplers() {
    let mut objs = vec![object(5, "image/png"), object(50, "text/css")];
    let mut count = Cycle { values: vec![1, 3], next: 0 };
    let mut size = Cycle { values: vec![100, 10, 53], next: 0 };
    let unpadded = morph_from_distribution(&mut objs, &mut count, &mut size).unwrap();
    assert_eq!(objs.len(), 3);
    assert_eq!(objs[0].target_size, Some(10));
    assert_eq!(objs[1].target_size, Some(100));
    assert_eq!(objs[2].target_size, Some(53));
    assert!(unpadded.is_empty());
    let mut objs = vec![object(5, "image/png")];
    let mut low = Fixed { value: 0, draws: 0 };
    let mut size = Fixed { value: 9, draws: 0 };
    assert!(morph_from_distribution(&mut objs, &mut low, &mut size).is_err());
    assert_eq!(objs.len(), 1);
    assert_eq!(objs[0].target_size, None);
}

#[test]
fn deterministic_sizes_round_up() {
    let mut objs = vec![object(100, "text/css"), object(1000, "image/png")];
    morph_deterministic(&mut objs, 3, 64, 512).unwrap();
    assert_eq!(objs.len(), 3);
    assert_eq!(objs[0].target_size, Some(128));
    assert_eq!(objs[1].target_size, Some(1024));
    let fake = objs[2].target_size.unwrap();
    assert_eq!(objs[2].kind, ObjectKind::Alpaca);
    assert!(fake % 64 == 0 && fake >= 64 && fake <= 512);
}

#[test]
fn deterministic_refuses_bad_bounds() {
    let mut objs = vec![object(10, "image/png")];
    assert_eq!(morph_deterministic(&mut objs, 3, 64, 100), Err(MorphError::InvalidRange));
    assert_eq!(morph_deterministic(&mut objs, 0, 64, 128), Err(MorphError::InvalidRange));
    assert_eq!(objs.len(), 1);
    assert_eq!(objs[0].target_size, None);
}

#[test]
fn target_size_from_query() {
    assert_eq!(parse_target_size("alpaca-padding=123"), 123);
    assert_eq!(parse_target_size("a=1&alpaca-padding=42&b=2"), 42);
    assert_eq!(parse_target_size("alpaca-padding=1&alpaca-padding=7"), 7);
    assert_eq!(parse_target_size(""), 0);
    assert_eq!(parse_target_size("alpaca-padding=x"), 0);
    assert_eq!(parse_target_size("123"), 0);
    assert_eq!(parse_target_size("alpaca-padding=99999999999999999999999"), 0);
}

#[test]
fn padded_reference_round_trip() {
    let r = padded_reference_string("/css/site.css", 4096);
    assert_eq!(r, "/css/site.css?alpaca-padding=4096");
    let q = r.split_once('?').unwrap().1;
    assert_eq!(parse_target_size(q), 4096);
    let r = padded_reference_string("/img/a.png?v=2", 77);
    assert_eq!(r, "/img/a.png?v=2&alpaca-padding=77");
    assert_eq!(parse_target_size(r.split_once('?').unwrap().1), 77);
}

#[test]
fn path_escape_is_refused() {
    let html_path = "/var/www/site/index.html";
    let alias = "/var/www/site".len();
    assert_eq!(uri_to_abs_fs_path("/srv", "../../../etc/passwd", html_path, alias), None);
    assert_eq!(
        uri_to_abs_fs_path("/srv", "css/./a.css?x=1", html_path, alias),
        Some(String::from("/srv/css/a.css?x=1"))
    );
    assert_eq!(
        uri_to_abs_fs_path("/srv", "img/../b.png", html_path, alias),
        Some(String::from("/srv/b.png"))
    );
    assert_eq!(uri_to_abs_fs_path("/srv", "https://cdn.example/x.css", html_path, 0), None);
    assert_eq!(uri_to_abs_fs_path("/srv", "http://cdn.example/x.css", html_path, 0), None);
}

#[test]
fn absolute_paths_without_alias() {
    assert_eq!(
        absolute_path("/srv/www", "/style/../main.css", "/docs/page.html"),
        Some(String::from("/srv/www/main.css"))
    );
    assert_eq!(
        absolute_path("/srv/www", "x.png", "/docs/page.html"),
        Some(String::from("/srv/www/docs/x.png"))
    );
}

#[test]
fn host_placeholder_expands() {
    assert_eq!(expand_host("/var/www/$http_host/html", "example.org"), "/var/www/example.org/html");
    assert_eq!(expand_host("/var/www", "example.org"), "/var/www");
}

#[test]
fn css_padding_needs_room_for_markers() {
    assert!(get_object_padding(ObjectKind::CSS, 10, 13).is_empty());
    assert!(get_object_padding(ObjectKind::CSS, 10, 10).is_empty());
    let p = get_object_padding(ObjectKind::CSS, 10, 30);
    assert_eq!(p.len(), 20);
    assert!(p.starts_with(b"/*") && p.ends_with(b"*/"));
    assert!(p[2..18].iter().all(|b| b.is_ascii_alphanumeric()));
    assert_eq!(get_css_padding(4), b"/**/".to_vec());
}

#[test]
fn binary_padding_has_requested_length() {
    assert_eq!(get_object_padding(ObjectKind::IMG, 10, 300).len(), 290);
    assert_eq!(get_object_padding(ObjectKind::Unknown, 7, 7).len(), 0);
}

#[test]
fn html_padding_is_exact() {
    let mut c = b"<html></html>".to_vec();
    get_html_padding(&mut c, 100);
    assert_eq!(c.len(), 100);
    assert!(c.starts_with(b"<html></html><!--"));
    assert!(c.ends_with(b"-->"));
    let mut d = b"ab".to_vec();
    get_html_padding(&mut d, 9);
    assert_eq!(d, b"ab<!---->".to_vec());
}

#[test]
fn resource_padding_from_query() {
    assert_eq!(morph_resource("text/css", "alpaca-padding=100", 50).len(), 50);
    assert!(morph_resource("text/css", "alpaca-padding=52", 50).is_empty());
    assert_eq!(morph_resource("image/png", "alpaca-padding=52", 50).len(), 2);
    assert!(morph_resource("image/png", "alpaca-padding=50", 50).is_empty());
    assert!(morph_resource("image/png", "v=1", 50).is_empty());
}

#[test]
fn object_kinds_from_mime() {
    assert_eq!(parse_object_kind("text/html"), ObjectKind::HTML);
    assert_eq!(parse_object_kind("text/css"), ObjectKind::CSS);
    assert_eq!(parse_object_kind("image/jpeg"), ObjectKind::IMG);
    assert_eq!(parse_object_kind("image/any"), ObjectKind::IMG);
    assert_eq!(parse_object_kind("application/json"), ObjectKind::Unknown);
}

#[test]
fn padding_object_shape() {
    let o = Object::padding(512);
    assert_eq!(o.kind, ObjectKind::Alpaca);
    assert!(o.content.is_empty());
    assert_eq!(o.target_size, Some(512));
    assert_eq!(o.uri, "pad_object");
    let s = Object::from_str("body{}", "text/css", String::from("/a.css"));
    assert_eq!(s.content, b"body{}".to_vec());
    assert_eq!(s.kind, ObjectKind::CSS);
}

#[test]
fn references_found_in_document_order() {
    let doc = parse_html(
        "<html><head><link rel=\"stylesheet\" href=\"a.css?v=1\"><link rel=\"icon\" href=\"/fav.ico\"></head>\
         <body><img src=\"img/b.png\"><img src=\"https://x.org/c.png\"><img src=\"../../../../etc/passwd\"></body></html>",
    );
    let found = find_references(&doc, "/srv", "/site/index.html", 5);
    let got: Vec<(ObjectKind, String, String)> =
        found.into_iter().map(|f| (f.kind, f.uri, f.path)).collect();
    assert_eq!(
        got,
        vec![
            (ObjectKind::CSS, String::from("a.css?v=1"), String::from("/srv/a.css")),
            (ObjectKind::IMG, String::from("img/b.png"), String::from("/srv/img/b.png")),
        ]
    );
}

#[test]
fn favicon_placeholder_added() {
    let doc = parse_html("<html><head></head><body></body></html>");
    let found = find_references(&doc, "/srv", "/index.html", 0);
    assert!(found.is_empty());
    let out = String::from_utf8(serialize_html(&doc).unwrap()).unwrap();
    assert!(out.contains("shortcut icon"));
}

#[test]
fn page_morphed_deterministically() {
    let doc = parse_html("<html><head><link rel=\"stylesheet\" href=\"a.css\"></head><body><p>hi</p></body></html>");
    let found = find_references(&doc, "/srv", "/index.html", 0);
    assert_eq!(found.len(), 1);
    let objects: Vec<Object> = found.into_iter().map(|f| f.into_object(b"p{}")).collect();
    let mut strategy: Strategy<Fixed> = Strategy::Deterministic { obj_num: 2, obj_size: 100, max_obj_size: 500 };
    let out = morph_page(&doc, objects, &mut strategy).unwrap();
    assert_eq!(out.len() % 100, 0);
    let text = String::from_utf8(out).unwrap();
    assert!(text.contains("a.css?alpaca-padding=100"));
    assert!(text.contains("/__alpaca_fake_image.png?alpaca-padding="));
    assert!(text.contains("visibility:hidden"));
    assert!(text.ends_with("-->"));
}

#[test]
fn page_served_unmorphed_when_sampling_fails() {
    let doc = parse_html("<html><head></head><body><img src=\"a.png\"></body></html>");
    let found = find_references(&doc, "/srv", "/index.html", 0);
    let objects: Vec<Object> = found.into_iter().map(|f| f.into_object(b"PNG")).collect();
    let mut strategy = Strategy::Probabilistic {
        html: Fixed { value: 100_000, draws: 0 },
        count: Fixed { value: 0, draws: 0 },
        size: Fixed { value: 10, draws: 0 },
    };
    let out = String::from_utf8(morph_page(&doc, objects, &mut strategy).unwrap()).unwrap();
    assert!(!out.contains("alpaca-padding"));
    assert!(!out.contains("<!--"));
}

#[test]
fn page_padding_to_drawn_size() {
    let mut c = b"0123456789".to_vec();
    let mut strategy = Strategy::Probabilistic {
        html: Fixed { value: 40, draws: 0 },
        count: Fixed { value: 0, draws: 0 },
        size: Fixed { value: 0, draws: 0 },
    };
    assert!(pad_page(&mut c, &mut strategy));
    assert_eq!(c.len(), 40);
    let mut small = b"0123456789".to_vec();
    let mut low = Strategy::Probabilistic {
        html: Fixed { value: 16, draws: 0 },
        count: Fixed { value: 0, draws: 0 },
        size: Fixed { value: 0, draws: 0 },
    };
    assert!(!pad_page(&mut small, &mut low));
    assert_eq!(small, b"0123456789".to_vec());
}

fn some(s: &str) -> Option<String> {
    Some(String::from(s))
}

#[test]
fn get_multiple_at_the_top_of_the_range() {
    assert_eq!(get_multiple(1, usize::MAX), usize::MAX);
    assert_eq!(get_multiple(10, usize::MAX - 9), usize::MAX - 5);
}

#[test]
fn floor_zero_always_succeeds() {
    let mut stub = Fixed { value: 0, draws: 0 };
    assert_eq!(sample_ge(&mut stub, 0), Ok(0));
    assert_eq!(stub.draws, 1);
    assert_eq!(sample_ge_many(&mut stub, 0, 4), Ok(vec![0, 0, 0, 0]));
}

#[test]
fn zero_samples_draw_nothing() {
    let mut stub = Fixed { value: 0, draws: 0 };
    assert_eq!(sample_ge_many(&mut stub, 100, 0), Ok(vec![]));
    assert_eq!(stub.draws, 0);
}

#[test]
fn first_exhaustion_stops_the_draws() {
    let mut stub = Fixed { value: 3, draws: 0 };
    assert_eq!(
        sample_ge_many(&mut stub, 4, 5),
        Err(MorphError::SamplingExhausted(String::from("fixed")))
    );
    assert_eq!(stub.draws, 30);
}

#[test]
fn stylesheet_links_chosen() {
    assert_eq!(stylesheet_reference(some("stylesheet"), some("a.css")), some("a.css"));
    assert_eq!(stylesheet_reference(some("icon"), some("a.css")), None);
    assert_eq!(stylesheet_reference(some("stylesheet"), None), None);
    assert_eq!(stylesheet_reference(None, some("a.css")), None);
}

#[test]
fn images_and_icons_chosen() {
    assert_eq!(image_reference(some("img"), None, None, some("a.png")), (false, some("a.png")));
    assert_eq!(
        image_reference(some("link"), some("shortcut icon"), some("f.ico"), None),
        (true, some("f.ico"))
    );
    assert_eq!(image_reference(some("link"), some("icon"), None, None), (true, None));
    assert_eq!(image_reference(some("link"), some("stylesheet"), some("a.css"), None), (false, None));
    assert_eq!(image_reference(some("link"), None, some("a.css"), None), (false, None));
}

#[test]
fn references_recorded_only_inside_alias() {
    let doc = parse_html("<html><body><img src=\"a.png\"></body></html>");
    let node = first_match(&doc, "img").unwrap();
    let mut out = Vec::new();
    record_reference(&mut out, ObjectKind::IMG, String::from("../../../etc/passwd"), node.clone(), "/srv", "/var/www/site/index.html", 13);
    assert!(out.is_empty());
    record_reference(&mut out, ObjectKind::IMG, String::from("img/a.png?x=1"), node, "/srv", "/var/www/site/index.html", 13);
    assert_eq!(out.len(), 1);
    assert_eq!(out[0].path, "/srv/img/a.png");
    assert_eq!(out[0].uri, "img/a.png?x=1");
}

#[test]
fn escaping_reference_skipped_others_found() {
    let doc = parse_html(
        "<html><head><link rel=\"stylesheet\" href=\"../../../etc/passwd\"><link rel=\"stylesheet\" href=\"s.css\"></head>\
         <body><img src=\"../../../etc/passwd\"><img src=\"i.png\"></body></html>",
    );
    let found = find_references(&doc, "/srv", "/var/www/site/index.html", 13);
    let paths: Vec<String> = found.into_iter().map(|f| f.path).collect();
    assert_eq!(paths, vec![String::from("/srv/s.css"), String::from("/srv/i.png")]);
}

#[test]
fn reference_attributes() {
    assert_eq!(reference_attribute("img"), some("src"));
    assert_eq!(reference_attribute("script"), some("src"));
    assert_eq!(reference_attribute("link"), some("href"));
    assert_eq!(reference_attribute("div"), None);
}

#[test]
fn rewritten_references_written_back() {
    let doc = parse_html("<html><head><link rel=\"stylesheet\" href=\"style.css?v=1\"></head><body><img src=\"a.png\"></body></html>");
    let found = find_references(&doc, "/srv", "/index.html", 0);
    let mut objects: Vec<Object> = found.into_iter().map(|f| f.into_object(b"x")).collect();
    objects[0].target_size = Some(100);
    objects[1].target_size = Some(64);
    assert_eq!(append_ref(&objects[0]), Some((some("href").unwrap(), some("style.css?v=1&alpaca-padding=100").unwrap())));
    assert_eq!(append_ref(&objects[1]), Some((some("src").unwrap(), some("a.png?alpaca-padding=64").unwrap())));
    assert_eq!(append_ref(&Object::padding(5)), None);
    objects.push(Object::padding(300));
    let (rewritten, fakes) = insert_objects_refs(&doc, &objects, 2);
    assert_eq!(rewritten.len(), 2);
    assert_eq!(fakes, vec![String::from("/__alpaca_fake_image.png?alpaca-padding=300")]);
    let out = String::from_utf8(serialize_html(&doc).unwrap()).unwrap();
    assert!(out.contains("href=\"style.css?v=1&amp;alpaca-padding=100\""));
    assert!(out.contains("src=\"a.png?alpaca-padding=64\""));
    assert!(out.contains("visibility:hidden"));
}

#[test]
fn failed_strategy_keeps_resources() {
    let mut objs = vec![object(10, "image/png")];
    let mut strategy: Strategy<Fixed> = Strategy::Deterministic { obj_num: 0, obj_size: 64, max_obj_size: 128 };
    assert!(!run_strategy(&mut objs, &mut strategy));
    assert_eq!(objs.len(), 1);
    assert_eq!(objs[0].target_size, None);
}

#[test]
fn unmorphed_page_served_as_serialized() {
    let mut strategy: Strategy<Fixed> = Strategy::Deterministic { obj_num: 2, obj_size: 64, max_obj_size: 128 };
    assert_eq!(finish_page(b"<p>x</p>".to_vec(), false, &mut strategy), b"<p>x</p>".to_vec());
    let padded = finish_page(b"<p>x</p>".to_vec(), true, &mut strategy);
    assert_eq!(padded.len(), 64);
    assert!(padded.starts_with(b"<p>x</p><!--") && padded.ends_with(b"-->"));
    let mut low = Strategy::Probabilistic {
        html: Fixed { value: 3, draws: 0 },
        count: Fixed { value: 0, draws: 0 },
        size: Fixed { value: 0, draws: 0 },
    };
    assert_eq!(finish_page(b"<p>x</p>".to_vec(), true, &mut low), b"<p>x</p>".to_vec());
}

#[test]
fn distributions_hold_what_was_parsed() {
    let d = Distributions::from("Normal/5000,100", "10 0.5 20 0.5", "Gamma/2,3").unwrap();
    assert_eq!(d.html.name, "Normal");
    assert_eq!(d.obj_num.name, "custom");
    assert_eq!(d.obj_size.name, "Gamma");
    assert_eq!(
        Distributions::from("Normal/1", "Zipf/1", "x").err(),
        Some(MorphError::Parse(ParseFault::Arity))
    );
    assert_eq!(
        Distributions::from("Normal/1,2", "10 0.5 20", "Zipf/1").err(),
        Some(MorphError::Parse(ParseFault::Table))
    );
}

#[test]
fn table_split_on_unicode_whitespace() {
    assert!(parse_dist_table("10\u{a0}0.5\u{3000}20\u{2003}0.5").is_ok());
}

#[test]
fn probabilities_with_exponents() {
    let p = |s: &str| parse_probability(&s.chars().collect::<Vec<char>>());
    assert_eq!(p("5e-1"), Some(500_000_000));
    assert_eq!(p("2E-1"), Some(200_000_000));
    assert_eq!(p("25e-2"), Some(250_000_000));
    assert_eq!(p("1e0"), Some(1_000_000_000));
    assert_eq!(p("0.5e+0"), Some(500_000_000));
    assert_eq!(p("1e-10"), Some(0));
    assert_eq!(p("0e999999999999999999999999999999999999999"), Some(0));
    assert_eq!(p("1e-999999999999999999999999999999999999999"), Some(0));
    assert_eq!(p("1e30"), None);
    assert_eq!(p("1e999999999999999999999999999999999999999"), None);
    assert_eq!(p("1e"), None);
    assert_eq!(p("e5"), None);
    assert_eq!(p("1e5x"), None);
    let d = parse_dist_table("10 2e-1 20 3e-1 30 5e-1").unwrap();
    match d.shape {
        Shape::Custom(t) => assert_eq!(t.pick(500_000_000), 20),
        _ => panic!("expected a table"),
    }
}

#[test]
fn unavailable_strategy_serves_page_as_is() {
    let doc = parse_html("<html><head></head><body><img src=\"a.png\"></body></html>");
    let found = find_references(&doc, "/srv", "/index.html", 0);
    let objects: Vec<Object> = found.into_iter().map(|f| f.into_object(b"PNG")).collect();
    let before = serialize_html(&doc).unwrap();
    let mut strategy: Strategy<Fixed> = Strategy::Unmorphed;
    let out = morph_page(&doc, objects, &mut strategy).unwrap();
    assert_eq!(out, before);
}
