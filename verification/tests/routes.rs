use webhub_handler::route::{
    best_route_match, outlet_plan, write_route_active, write_route_end, write_route_hidden, write_route_start, write_tag_close,
    write_tag_open,
};
use webhub_handler::BufferWriter;

#[test]
fn route_shell_attributes() {
    let mut w = BufferWriter::new();
    write_route_start(&mut w, "/contacts/:id", "contact-page", true).unwrap();
    assert_eq!(w.content(), "<webhub-route path=\"/contacts/:id\" component=\"contact-page\" exact");
    let mut bare = BufferWriter::new();
    write_route_start(&mut bare, "", "", false).unwrap();
    assert_eq!(bare.content(), "<webhub-route");
}

#[test]
fn matched_route_carries_chain_index() {
    let mut w = BufferWriter::new();
    let mut index: usize = 0;
    write_route_active(&mut w, &mut index).unwrap();
    write_route_end(&mut w).unwrap();
    write_route_active(&mut w, &mut index).unwrap();
    assert_eq!(index, 2);
    assert_eq!(w.content(), " data-ri=\"0\" active></webhub-route> data-ri=\"1\" active>");
}

#[test]
fn multi_digit_chain_index() {
    let mut w = BufferWriter::new();
    let mut index: usize = 1207;
    write_route_active(&mut w, &mut index).unwrap();
    assert_eq!(w.content(), " data-ri=\"1207\" active>");
    assert_eq!(index, 1208);
}

#[test]
fn unmatched_route_is_hidden_and_empty() {
    let mut w = BufferWriter::new();
    write_route_hidden(&mut w).unwrap();
    assert_eq!(w.content(), " style=\"display:none\"></webhub-route>");
}

#[test]
fn light_dom_tags() {
    let mut w = BufferWriter::new();
    write_tag_open(&mut w, "webhub-outlet").unwrap();
    write_tag_close(&mut w, "webhub-outlet").unwrap();
    assert_eq!(w.content(), "<webhub-outlet</webhub-outlet>");
}

#[test]
fn most_specific_route_wins_and_first_breaks_ties() {
    assert_eq!(best_route_match(&[Some(1), Some(2), None]), Some(1));
    assert_eq!(best_route_match(&[Some(2), Some(1), Some(2)]), Some(0));
    assert_eq!(best_route_match(&[None, Some(0)]), Some(1));
    assert_eq!(best_route_match(&[None, None]), None);
    assert_eq!(best_route_match(&[]), None);
}

#[test]
fn outlet_renders_best_child_and_hides_the_others() {
    let plan = outlet_plan(&[Some(1), None, Some(2), Some(2)], &[true, true, false, true]);
    assert_eq!(plan.matched, Some(2));
    assert_eq!(plan.hidden, vec![0, 1, 3]);
    let none = outlet_plan(&[None, None], &[true, false]);
    assert_eq!(none.matched, None);
    assert_eq!(none.hidden, vec![0]);
}
