use apple_tv::links::{fill, find, normalise, resolve, Launch};

fn link(l: Launch) -> String {
    match l {
        Launch::DeepLink(u) => u,
        Launch::AppOnly { target, .. } => panic!("expected a deep link, got app {target}"),
    }
}

fn app_only(l: Launch) -> (String, Option<String>) {
    match l {
        Launch::AppOnly { target, why } => (target, why),
        Launch::DeepLink(u) => panic!("expected app only, got {u}"),
    }
}

#[test]
fn people_do_not_say_the_full_service_name() {
    assert!(link(resolve("disney", None, Some("abc"), None)).contains("disneyplus.com"));
    assert!(link(resolve("Disney+", None, Some("abc"), None)).contains("disneyplus.com"));
    assert!(link(resolve("DisneyPlus", None, Some("abc"), None)).contains("disneyplus.com"));
}

/// A series and a film are different URLs on the services that distinguish them, and the content
/// kind is the only thing that can say which.
#[test]
fn a_series_uses_the_series_template_where_there_is_one() {
    assert_eq!(
        link(resolve("hulu", None, Some("x1"), Some("series"))),
        "hulu://series/x1"
    );
    assert_eq!(
        link(resolve("hulu", None, Some("x1"), Some("movie"))),
        "hulu://watch/x1"
    );
    // An episode is a thing you watch, so it takes the series-shaped link on Hulu. What matters
    // is that it is not silently treated as a film.
    assert_eq!(
        link(resolve("hulu", None, Some("x1"), Some("episode"))),
        "hulu://series/x1"
    );
}

/// A dead service must launch and say so, not report success for a link that did nothing.
#[test]
fn a_service_that_stopped_deep_linking_launches_and_explains() {
    let (target, why) = app_only(resolve("Netflix", None, Some("80234304"), Some("series")));
    assert_eq!(target, "com.netflix.Netflix");
    let why = why.expect("a dead deep link has to be explained");
    assert!(why.contains("home screen"), "{why}");
}

/// An unknown service is still launchable: the device's own app list is the truth about what is
/// installed, and the table is only about deep links.
#[test]
fn an_unknown_service_still_launches_by_what_the_device_reported() {
    let (target, why) = app_only(resolve(
        "Some Regional Broadcaster",
        Some("se.svt.play"),
        Some("abc"),
        None,
    ));
    assert_eq!(target, "se.svt.play");
    assert!(why.unwrap().contains("no deep link"));

    // And with no content id there is nothing to explain.
    let (target, why) = app_only(resolve("Whatever", Some("com.x.y"), None, None));
    assert_eq!(target, "com.x.y");
    assert!(why.is_none());
}

/// A URL that arrived already resolved goes straight through.
#[test]
fn an_already_resolved_url_is_passed_through_untouched() {
    let url = "https://tv.apple.com/us/episode/foo/umc.cmc.abc123";
    assert_eq!(link(resolve("Apple TV", None, Some(url), Some("episode"))), url);
}

#[test]
fn an_empty_content_id_is_the_same_as_none() {
    let (_, why) = app_only(resolve("Netflix", None, Some(""), None));
    assert!(why.is_none(), "an empty id is not a failed deep link");
}

#[test]
fn every_service_in_the_table_spells_its_own_link() {
    let cases = [
        ("Apple TV", "https://tv.apple.com/movie/9?action=play"),
        ("tv", "https://tv.apple.com/movie/9?action=play"),
        ("disney", "https://www.disneyplus.com/video/9"),
        ("YouTube", "youtube://www.youtube.com/watch?v=9"),
        ("hulu", "hulu://watch/9"),
        ("Peacock", "https://www.peacocktv.com/watch/playback/vod/9"),
        ("Pluto TV", "https://pluto.tv/us/live-tv/9"),
        ("spotify", "spotify:?uri=spotify:album:9&play=true"),
    ];
    for (app, url) in cases {
        assert_eq!(link(resolve(app, None, Some("9"), Some("movie"))), url);
    }
    assert_eq!(
        link(resolve("apple tv+", None, Some("9"), Some("season"))),
        "https://tv.apple.com/show/9"
    );
    // No series template of its own: the default one.
    assert_eq!(
        link(resolve("disney", None, Some("9"), Some("series"))),
        "https://www.disneyplus.com/video/9"
    );
}

#[test]
fn every_service_that_is_said_to_work_deep_links() {
    for app in ["Apple TV", "Disney+", "YouTube", "Hulu", "Peacock", "Pluto", "Spotify"] {
        assert!(matches!(resolve(app, None, Some("x1"), None), Launch::DeepLink(_)), "{app}");
    }
    assert_eq!(app_only(resolve("Peacock TV", None, None, None)).0, "com.peacocktv.peacock");
}

#[test]
fn the_explanations_name_the_app() {
    let (target, why) = app_only(resolve("Paramount+", None, Some("x"), None));
    assert_eq!(target, "com.cbsvideo.app");
    assert_eq!(
        why.unwrap(),
        "opened Paramount+ on its home screen — it stopped honouring deep links, so it cannot be \
         sent straight to a title"
    );
    let (target, why) = app_only(resolve("Nowhere", None, Some("x"), None));
    assert_eq!(target, "Nowhere");
    assert_eq!(
        why.unwrap(),
        "opened Nowhere; this driver has no deep link for it, so it will be on its home screen"
    );
}

#[test]
fn the_device_is_believed_before_the_table() {
    assert_eq!(app_only(resolve("Netflix", Some("com.box.own"), None, None)).0, "com.box.own");
    assert_eq!(app_only(resolve("Netflix", None, None, None)).0, "com.netflix.Netflix");
}

#[test]
fn names_are_compared_in_lower_case_and_without_punctuation() {
    assert_eq!(normalise("Apple TV+"), "appletv");
    assert_eq!(normalise("ÉCOLE—Télé 4"), "écoletélé4");
    assert_eq!(normalise(""), "");
    assert_eq!(find("netflix kids").unwrap().bundle, "com.netflix.Netflix");
    assert!(find("my netflix").is_none());
}

#[test]
fn every_slot_is_filled_from_the_left() {
    assert_eq!(fill("a/{id}/b/{id}", "7"), "a/7/b/7");
    assert_eq!(fill("{{id}}", "7"), "{7}");
    assert_eq!(fill("{id", "7"), "{id");
    assert_eq!(fill("", "7"), "");
    assert_eq!(fill("{id}", "{id}"), "{id}");
}
