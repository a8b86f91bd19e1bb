use log_viewer::columns::{resolve_column_index, resolve_column_name};
use log_viewer::visible::{
    add_visible_column, column_suggestions, dynamic_columns, header_label_for, is_base_column,
    prune_visible_columns, remove_visible_column, try_add_column_from_search, ColumnAddResult,
};

fn names(list: &[&str]) -> Vec<String> {
    list.iter().map(|name| name.to_string()).collect()
}

#[test]
fn resolver_follows_its_precedence() {
    let columns = names(&["requestId", "traceId"]);
    assert_eq!(resolve_column_name(&columns, "trace"), Some("traceId".to_string()));
    assert_eq!(resolve_column_name(&columns, "requestt"), Some("requestId".to_string()));
    assert_eq!(resolve_column_name(&columns, "zzz"), None);
}

#[test]
fn resolver_prefers_exact_then_case_then_prefix_then_substring() {
    let columns = names(&["Status", "http.status", "status", "statusCode", "xstatus"]);
    assert_eq!(resolve_column_index(&columns, "status"), Some(2));
    assert_eq!(resolve_column_index(&columns, "STATUS"), Some(0));
    assert_eq!(resolve_column_index(&columns, "statusc"), Some(3));
    assert_eq!(resolve_column_index(&columns, "p.stat"), Some(1));
    assert_eq!(resolve_column_index(&columns, "  xstat  "), Some(4));
}

#[test]
fn resolver_takes_first_closest_fuzzy_match() {
    let columns = names(&["abcdx", "abcde", "abcdy"]);
    assert_eq!(resolve_column_index(&columns, "abcdz"), Some(0));
    assert_eq!(resolve_column_index(&columns, "abzde"), Some(1));
    let far = names(&["abcdefgh"]);
    assert_eq!(resolve_column_index(&far, "abcd"), Some(0));
    assert_eq!(resolve_column_index(&far, "wxyzefgh"), None);
    assert_eq!(resolve_column_index(&far, "xbcdefgz1"), Some(0));
}

#[test]
fn resolver_gives_nothing_for_empty_input_or_no_columns() {
    assert_eq!(resolve_column_name(&names(&["a"]), "   "), None);
    assert_eq!(resolve_column_name(&names(&["a"]), ""), None);
    assert_eq!(resolve_column_name(&Vec::new(), "a"), None);
}

#[test]
fn base_columns_are_known_in_any_case() {
    for name in ["time", "LEVEL", "Name", "namespace", "msg", "error", "errordetails", "correlationId", "service"] {
        assert!(is_base_column(name), "{name}");
    }
    assert!(!is_base_column("traceId"));
    assert!(!is_base_column(""));
    assert_eq!(header_label_for("TIME"), "Timestamp");
    assert_eq!(header_label_for("errorDetails"), "Error Details");
    assert_eq!(header_label_for("correlationid"), "Correlation ID");
    assert_eq!(header_label_for("msg"), "Message");
    assert_eq!(header_label_for("other.key"), "other.key");
}

#[test]
fn shown_columns_are_chosen_known_and_distinct() {
    let columns = names(&["a", "b", "msg", "traceId"]);
    let visible = names(&["traceId", "msg", "TRACEID", "b", "missing", "traceId", "A"]);
    assert_eq!(dynamic_columns(&columns, &visible), names(&["traceId", "b"]));
    assert_eq!(dynamic_columns(&Vec::new(), &visible), Vec::<String>::new());
}

#[test]
fn pruning_takes_the_catalogs_spelling() {
    let columns = names(&["requestId", "traceId", "userAgent"]);
    let mut visible = names(&["TRACEID", "level", "gone", "traceid", "useragent"]);
    prune_visible_columns(&mut visible, &columns);
    assert_eq!(visible, names(&["traceId", "userAgent"]));
    prune_visible_columns(&mut visible, &Vec::new());
    assert_eq!(visible, Vec::<String>::new());
}

#[test]
fn adding_and_removing_visible_columns() {
    let mut visible = names(&["traceId"]);
    assert!(!add_visible_column(&mut visible, "Level"));
    assert!(!add_visible_column(&mut visible, "TRACEID"));
    assert!(add_visible_column(&mut visible, "userId"));
    assert_eq!(visible, names(&["traceId", "userId"]));
    remove_visible_column(&mut visible, "TraceID");
    assert_eq!(visible, names(&["userId"]));
    remove_visible_column(&mut visible, "absent");
    assert_eq!(visible, names(&["userId"]));
}

#[test]
fn suggestions_offer_matching_columns() {
    let columns = names(&["a1", "a2", "a3", "a4", "a5", "a6", "level", "zeta"]);
    let visible = names(&["A2"]);
    assert_eq!(column_suggestions(&columns, &visible, ""), names(&["a1", "a3", "a4", "a5", "a6"]));
    assert_eq!(column_suggestions(&columns, &visible, " ET "), names(&["zeta"]));
    assert_eq!(column_suggestions(&columns, &visible, "zetta"), names(&["zeta"]));
    assert_eq!(column_suggestions(&columns, &visible, "levle"), Vec::<String>::new());
    assert_eq!(column_suggestions(&columns, &visible, "qqqqqqqq"), Vec::<String>::new());
    assert_eq!(column_suggestions(&Vec::new(), &visible, "a"), Vec::<String>::new());
}

#[test]
fn adding_from_the_search_text() {
    let columns = names(&["level", "requestId", "traceId"]);
    let mut visible = names(&["traceId"]);
    let mut search = "   ".to_string();
    assert_eq!(try_add_column_from_search(&mut visible, &columns, &mut search), ColumnAddResult::Empty);
    assert_eq!(search, "   ");

    let mut search = "nothing-like-it".to_string();
    assert_eq!(
        try_add_column_from_search(&mut visible, &columns, &mut search),
        ColumnAddResult::NotFound("nothing-like-it".to_string())
    );
    assert_eq!(search, "nothing-like-it");

    let mut search = "Level".to_string();
    assert_eq!(
        try_add_column_from_search(&mut visible, &columns, &mut search),
        ColumnAddResult::BaseColumn("level".to_string())
    );
    assert_eq!(search, "Level");

    let mut search = "trace".to_string();
    assert_eq!(
        try_add_column_from_search(&mut visible, &columns, &mut search),
        ColumnAddResult::AlreadyVisible("traceId".to_string())
    );
    assert_eq!(search, "");

    let mut search = " request ".to_string();
    assert_eq!(
        try_add_column_from_search(&mut visible, &columns, &mut search),
        ColumnAddResult::Added("requestId".to_string())
    );
    assert_eq!(search, "");
    assert_eq!(visible, names(&["traceId", "requestId"]));
}
