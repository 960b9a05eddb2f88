//! Turning an app, a content id and a content kind into something that tvOS will open.
//!
//! A content reference is not a URL: a video id is the same id on every box, and only the
//! spelling of the request differs. This is the spelling. It is data about the world and it rots,
//! so it is a table. A service that is not in the table, or whose deep link died, still launches,
//! by bundle id and on its home screen, and the caller is told so.

use crate::text;
use vstd::prelude::*;
use vstd::utf8::*;

verus! {

/// How one service spells "open this title".
pub struct Service {
    /// Matched loosely against what the app is called.
    pub aliases: Vec<&'static str>,
    pub bundle: &'static str,
    /// `{id}` is replaced with the content id. None where nobody has a working deep link.
    pub template: Option<&'static str>,
    /// A series link that differs from the default.
    pub series: Option<&'static str>,
}

/// A service as a mathematical object.
pub struct ServiceView {
    pub aliases: Seq<Seq<char>>,
    pub bundle: Seq<char>,
    pub template: Option<Seq<char>>,
    pub series: Option<Seq<char>>,
}

/// Text that may be missing, as a mathematical object.
pub open spec fn maybe(t: Option<&str>) -> Option<Seq<char>> {
    match t {
        Some(t) => Some(t@),
        None => None,
    }
}

impl View for Service {
    type V = ServiceView;

    open spec fn view(&self) -> ServiceView {
        ServiceView {
            aliases: Seq::new(self.aliases@.len(), |i: int| self.aliases@[i]@),
            bundle: self.bundle@,
            template: maybe(self.template),
            series: maybe(self.series),
        }
    }
}

/// The services that are known, in the order in which they are tried. The last two launch and do
/// not deep link any more; they are listed so that it can be said why.
///
/// Of Peacock the bundle id and the link come from what is generally known of its app and of the
/// addresses at which its web site plays a title. They are in no list of tried links, and they
/// have not been tried on a device: of this table they are the first to doubt.
pub open spec fn services() -> Seq<ServiceView> {
    seq![
        ServiceView {
            aliases: seq!["appletv"@, "apple tv"@, "tv"@, "appletvplus"@, "apple tv+"@],
            bundle: "com.apple.TVWatchList"@,
            template: Some("https://tv.apple.com/movie/{id}?action=play"@),
            series: Some("https://tv.apple.com/show/{id}"@),
        },
        ServiceView {
            aliases: seq!["disney"@, "disney+"@, "disneyplus"@],
            bundle: "com.disney.disneyplus"@,
            template: Some("https://www.disneyplus.com/video/{id}"@),
            series: None,
        },
        ServiceView {
            aliases: seq!["youtube"@],
            bundle: "com.google.ios.youtube"@,
            template: Some("youtube://www.youtube.com/watch?v={id}"@),
            series: None,
        },
        ServiceView {
            aliases: seq!["hulu"@],
            bundle: "com.hulu.plus"@,
            template: Some("hulu://watch/{id}"@),
            series: Some("hulu://series/{id}"@),
        },
        ServiceView {
            aliases: seq!["peacock"@, "peacock tv"@],
            bundle: "com.peacocktv.peacock"@,
            template: Some("https://www.peacocktv.com/watch/playback/vod/{id}"@),
            series: None,
        },
        ServiceView {
            aliases: seq!["pluto"@, "pluto tv"@],
            bundle: "tv.pluto.ios"@,
            template: Some("https://pluto.tv/us/live-tv/{id}"@),
            series: None,
        },
        ServiceView {
            aliases: seq!["spotify"@],
            bundle: "com.spotify.client"@,
            template: Some("spotify:?uri=spotify:album:{id}&play=true"@),
            series: None,
        },
        ServiceView {
            aliases: seq!["netflix"@],
            bundle: "com.netflix.Netflix"@,
            template: None,
            series: None,
        },
        ServiceView {
            aliases: seq!["paramount"@, "paramount+"@, "paramountplus"@],
            bundle: "com.cbsvideo.app"@,
            template: None,
            series: None,
        },
    ]
}

/// The services that are known.
fn table() -> (r: Vec<Service>)
    ensures
        Seq::new(r@.len(), |i: int| r@[i]@) == services(),
{
    let r = vec![
        Service {
            aliases: vec!["appletv", "apple tv", "tv", "appletvplus", "apple tv+"],
            bundle: "com.apple.TVWatchList",
            template: Some("https://tv.apple.com/movie/{id}?action=play"),
            series: Some("https://tv.apple.com/show/{id}"),
        },
        Service {
            aliases: vec!["disney", "disney+", "disneyplus"],
            bundle: "com.disney.disneyplus",
            template: Some("https://www.disneyplus.com/video/{id}"),
            series: None,
        },
        Service {
            aliases: vec!["youtube"],
            bundle: "com.google.ios.youtube",
            template: Some("youtube://www.youtube.com/watch?v={id}"),
            series: None,
        },
        Service {
            aliases: vec!["hulu"],
            bundle: "com.hulu.plus",
            template: Some("hulu://watch/{id}"),
            series: Some("hulu://series/{id}"),
        },
        // See `services` for where these two come from.
        Service {
            aliases: vec!["peacock", "peacock tv"],
            bundle: "com.peacocktv.peacock",
            template: Some("https://www.peacocktv.com/watch/playback/vod/{id}"),
            series: None,
        },
        Service {
            aliases: vec!["pluto", "pluto tv"],
            bundle: "tv.pluto.ios",
            template: Some("https://pluto.tv/us/live-tv/{id}"),
            series: None,
        },
        Service {
            aliases: vec!["spotify"],
            bundle: "com.spotify.client",
            template: Some("spotify:?uri=spotify:album:{id}&play=true"),
            series: None,
        },
        Service {
            aliases: vec!["netflix"],
            bundle: "com.netflix.Netflix",
            template: None,
            series: None,
        },
        Service {
            aliases: vec!["paramount", "paramount+", "paramountplus"],
            bundle: "com.cbsvideo.app",
            template: None,
            series: None,
        },
    ];
    proof {
        assert(r@[0]@.aliases =~= services()[0].aliases);
        assert(r@[1]@.aliases =~= services()[1].aliases);
        assert(r@[2]@.aliases =~= services()[2].aliases);
        assert(r@[3]@.aliases =~= services()[3].aliases);
        assert(r@[4]@.aliases =~= services()[4].aliases);
        assert(r@[5]@.aliases =~= services()[5].aliases);
        assert(r@[6]@.aliases =~= services()[6].aliases);
        assert(r@[7]@.aliases =~= services()[7].aliases);
        assert(r@[8]@.aliases =~= services()[8].aliases);
        assert(Seq::new(r@.len(), |i: int| r@[i]@) =~= services());
    }
    r
}

/// The letters and digits of `s`, in order.
pub open spec fn kept(s: Seq<char>) -> Seq<char>
    decreases s.len(),
{
    if s.len() == 0 {
        seq![]
    } else if text::alphanumeric(s.last()) {
        kept(s.drop_last()).push(s.last())
    } else {
        kept(s.drop_last())
    }
}

/// A name as it is compared: in lower case, letters and digits only.
pub open spec fn normal(s: Seq<char>) -> Seq<char> {
    kept(text::lowercase(s))
}

/// A name as it is compared: in lower case, letters and digits only.
pub fn normalise(s: &str) -> (r: String)
    ensures
        r@ == normal(s@),
{
    let lower = text::text_lowercase(s);
    let chars = text::chars_of(lower.as_str());
    let mut out = String::new();
    let mut i: usize = 0;
    let ghost all = text::lowercase(s@);
    assert(out@ =~= kept(all.take(0)));
    while i < chars.len()
        invariant
            chars@ == all,
            i <= all.len(),
            out@ == kept(all.take(i as int)),
        decreases all.len() - i,
    {
        assert(all.take(i + 1).drop_last() =~= all.take(i as int));
        let c = chars[i];
        if text::char_alphanumeric(c) {
            out.push(c);
        }
        i += 1;
    }
    assert(all.take(all.len() as int) =~= all);
    out
}

/// Whether a service goes by a name: one of its aliases is the name or the start of it.
pub open spec fn goes_by(service: ServiceView, name: Seq<char>) -> bool {
    exists|i: int|
        0 <= i < service.aliases.len() && text::begins(
            normal(#[trigger] service.aliases[i]),
            name,
        )
}

/// The first of `from` that goes by `name`.
pub open spec fn first_by(from: Seq<ServiceView>, name: Seq<char>) -> Option<ServiceView>
    decreases from.len(),
{
    if from.len() == 0 {
        None
    } else if goes_by(from[0], name) {
        Some(from[0])
    } else {
        first_by(from.skip(1), name)
    }
}

/// The service that is meant by `app`.
pub open spec fn found(app: Seq<char>) -> Option<ServiceView> {
    first_by(services(), normal(app))
}

fn answers_to(service: &Service, name: &str) -> (r: bool)
    ensures
        r == goes_by(service@, name@),
{
    let mut i: usize = 0;
    while i < service.aliases.len()
        invariant
            i <= service.aliases@.len(),
            forall|j: int|
                0 <= j < i ==> !text::begins(normal(#[trigger] service@.aliases[j]), name@),
        decreases service.aliases@.len() - i,
    {
        assert(service@.aliases[i as int] == service.aliases@[i as int]@);
        if text::starts_with(name, normalise(service.aliases[i]).as_str()) {
            return true;
        }
        i += 1;
    }
    false
}

/// The service that is meant by `app`.
pub fn find(app: &str) -> (r: Option<Service>)
    ensures
        match r {
            Some(service) => found(app@) == Some(service@),
            None => found(app@) is None,
        },
{
    let want = normalise(app);
    let mut left = table();
    let ghost all = services();
    let mut i: usize = 0;
    assert(all.skip(0) =~= all);
    while i < left.len()
        invariant
            i <= left@.len(),
            want@ == normal(app@),
            all == services(),
            Seq::new(left@.len(), |i: int| left@[i]@) == all,
            first_by(all, want@) == first_by(all.skip(i as int), want@),
        decreases left@.len() - i,
    {
        assert(Seq::new(left@.len(), |i: int| left@[i]@)[i as int] == left@[i as int]@);
        assert(all.skip(i as int)[0] == left@[i as int]@);
        if answers_to(&left[i], want.as_str()) {
            return Some(left.remove(i));
        }
        assert(all.skip(i as int).skip(1) =~= all.skip(i + 1));
        i += 1;
    }
    assert(all.len() == left@.len());
    None
}

/// What to hand to the launcher, and whether the title made it in.
pub enum Launch {
    /// A URL that should open the title itself.
    DeepLink(String),
    /// Just the app. `why` explains it, and is meant to be said out loud.
    AppOnly { target: String, why: Option<String> },
}

/// A launch as a mathematical object.
pub enum LaunchView {
    DeepLink(Seq<char>),
    AppOnly { target: Seq<char>, why: Option<Seq<char>> },
}

impl View for Launch {
    type V = LaunchView;

    open spec fn view(&self) -> LaunchView {
        match self {
            Launch::DeepLink(url) => LaunchView::DeepLink(url@),
            Launch::AppOnly { target, why } => LaunchView::AppOnly {
                target: target@,
                why: match why {
                    Some(why) => Some(why@),
                    None => None,
                },
            },
        }
    }
}

/// A launch, part by part.
pub proof fn law_launch_says(launch: Launch)
    ensures
        match launch {
            Launch::DeepLink(url) => launch@ == LaunchView::DeepLink(url@),
            Launch::AppOnly { target, why } => launch@ is AppOnly && launch@->target == target@ && (
            why is Some ==> launch@->why == Some(why->0@)) && (why is None ==> launch@->why is None),
        },
{
}

/// `template` with every `{id}` in it replaced, from the left.
pub open spec fn filled(template: Seq<char>, id: Seq<char>) -> Seq<char>
    decreases template.len(),
{
    let slot = seq!['{', 'i', 'd', '}'];
    if template.len() == 0 {
        seq![]
    } else if text::begins(slot, template) {
        id + filled(template.skip(4), id)
    } else {
        seq![template[0]] + filled(template.skip(1), id)
    }
}

/// Put `id` in place of every `{id}`.
pub fn fill(template: &str, id: &str) -> (r: String)
    ensures
        r@ == filled(template@, id@),
{
    let chars = text::chars_of(template);
    let n: usize = chars.len();
    let mut out = String::new();
    let mut i: usize = 0;
    assert(template@.skip(0) =~= template@);
    assert(out@ + filled(template@, id@) =~= filled(template@, id@));
    while i < n
        invariant
            chars@ == template@,
            i <= n == template@.len(),
            out@ + filled(template@.skip(i as int), id@) == filled(template@, id@),
        decreases template@.len() - i,
    {
        let ghost before = out@;
        let ghost rest = template@.skip(i as int);
        let ghost slot = seq!['{', 'i', 'd', '}'];
        if n - i >= 4 && chars[i] == '{' && chars[i + 1] == 'i' && chars[i + 2] == 'd' && chars[i
            + 3] == '}' {
            assert(rest.subrange(0, 4) =~= slot);
            out.append(id);
            i += 4;
            assert(rest.skip(4) =~= template@.skip(i as int));
            assert(out@ + filled(template@.skip(i as int), id@) =~= before + filled(rest, id@));
        } else {
            proof {
                if text::begins(slot, rest) {
                    assert(rest.subrange(0, 4)[0] == '{');
                    assert(rest.subrange(0, 4)[1] == 'i');
                    assert(rest.subrange(0, 4)[2] == 'd');
                    assert(rest.subrange(0, 4)[3] == '}');
                }
            }
            out.push(chars[i]);
            i += 1;
            assert(rest.skip(1) =~= template@.skip(i as int));
            assert(out@ + filled(template@.skip(i as int), id@) =~= before + filled(rest, id@));
        }
    }
    assert(out@ + Seq::<char>::empty() =~= out@);
    out
}

/// A series, a season or an episode.
pub open spec fn is_series(kind: Option<Seq<char>>) -> bool {
    kind == Some("series"@) || kind == Some("season"@) || kind == Some("episode"@)
}

/// The template of a service for a kind of content: the series one where that is meant and there
/// is one, else the default.
pub open spec fn template_for(service: ServiceView, kind: Option<Seq<char>>) -> Option<Seq<char>> {
    if is_series(kind) && service.series is Some {
        service.series
    } else {
        service.template
    }
}

/// The bundle id to fall back to: what the device reported, else what the table knows, else the
/// name itself.
pub open spec fn fallback(app: Seq<char>, installed: Option<Seq<char>>) -> Seq<char> {
    match (installed, found(app)) {
        (Some(bundle), _) => bundle,
        (None, Some(service)) => service.bundle,
        (None, None) => app,
    }
}

/// Why an app without a known deep link opens on its home screen.
pub open spec fn why_unknown(app: Seq<char>) -> Seq<char> {
    "opened "@ + app
        + "; this driver has no deep link for it, so it will be on its home screen"@
}

/// Why an app whose deep link died opens on its home screen.
pub open spec fn why_dead(app: Seq<char>) -> Seq<char> {
    "opened "@ + app
        + " on its home screen — it stopped honouring deep links, so it cannot be sent straight to a title"@
}

/// What to launch.
pub open spec fn resolved(
    app: Seq<char>,
    installed: Option<Seq<char>>,
    id: Option<Seq<char>>,
    kind: Option<Seq<char>>,
) -> LaunchView {
    let target = fallback(app, installed);
    if id is None || id->0.len() == 0 {
        LaunchView::AppOnly { target, why: None }
    } else if text::occurs("://"@, id->0) {
        LaunchView::DeepLink(id->0)
    } else {
        match found(app) {
            None => LaunchView::AppOnly { target, why: Some(why_unknown(app)) },
            Some(service) => match template_for(service, kind) {
                Some(template) => LaunchView::DeepLink(filled(template, id->0)),
                None => LaunchView::AppOnly { target, why: Some(why_dead(app)) },
            },
        }
    }
}

/// Work out what to launch.
///
/// `app` is whatever was named; `installed` is what the device reported for it, so a name that
/// matches nothing in the table can be launched all the same. The table is about deep links and
/// not about what exists.
pub fn resolve(
    app: &str,
    installed: Option<&str>,
    content_id: Option<&str>,
    content_kind: Option<&str>,
) -> (r: Launch)
    ensures
        r@ == resolved(app@, maybe(installed), maybe(content_id), maybe(content_kind)),
{
    let service = find(app);
    let target = match installed {
        Some(bundle) => bundle.to_string(),
        None => match &service {
            Some(service) => service.bundle.to_string(),
            None => app.to_string(),
        },
    };
    let id = match content_id {
        Some(id) => id,
        None => {
            return Launch::AppOnly { target, why: None };
        },
    };
    if text::chars_of(id).len() == 0 {
        return Launch::AppOnly { target, why: None };
    }
    // Already a URL: resolved upstream, or copied out of a share sheet.
    if text::contains(id, "://") {
        return Launch::DeepLink(id.to_string());
    }
    let service = match service {
        Some(service) => service,
        None => {
            return Launch::AppOnly {
                target,
                why: Some(
                    text::concat3(
                        "opened ",
                        app,
                        "; this driver has no deep link for it, so it will be on its home screen",
                    ),
                ),
            };
        },
    };
    let series = match content_kind {
        Some(kind) => text::same(kind, "series") || text::same(kind, "season") || text::same(
            kind,
            "episode",
        ),
        None => false,
    };
    let template = if series && service.series.is_some() {
        service.series
    } else {
        service.template
    };
    match template {
        Some(template) => Launch::DeepLink(fill(template, id)),
        None => Launch::AppOnly {
            target,
            why: Some(
                text::concat3(
                    "opened ",
                    app,
                    " on its home screen — it stopped honouring deep links, so it cannot be sent straight to a title",
                ),
            ),
        },
    }
}

// --------------------------------------------------------------------------------------------
// Laws
// --------------------------------------------------------------------------------------------

/// An id that is a URL already is passed through untouched, whatever the app.
pub proof fn law_url_passes_through(
    app: Seq<char>,
    installed: Option<Seq<char>>,
    url: Seq<char>,
    kind: Option<Seq<char>>,
)
    requires
        text::occurs("://"@, url),
    ensures
        resolved(app, installed, Some(url), kind) == LaunchView::DeepLink(url),
{
    reveal_strlit("://");
    assert(url.len() >= 3);
}

/// An empty id is the same as none: the app opens and there is nothing to explain.
pub proof fn law_empty_id_is_none(
    app: Seq<char>,
    installed: Option<Seq<char>>,
    kind: Option<Seq<char>>,
)
    ensures
        resolved(app, installed, Some(seq![]), kind) == resolved(app, installed, None, kind),
        resolved(app, installed, None, kind) == (LaunchView::AppOnly {
            target: fallback(app, installed),
            why: None,
        }),
{
}

/// A title that could not be honoured is never passed over in silence: where an id was given, the
/// title is opened or it is said why not. Either way something launches, and where the device
/// reported a bundle id, an app without its title is launched by that.
pub proof fn law_title_opens_or_is_explained(
    app: Seq<char>,
    installed: Option<Seq<char>>,
    id: Seq<char>,
    kind: Option<Seq<char>>,
)
    requires
        id.len() > 0,
    ensures
        match resolved(app, installed, Some(id), kind) {
            LaunchView::DeepLink(_) => true,
            LaunchView::AppOnly { target, why } => {
                &&& why is Some
                &&& target == fallback(app, installed)
                &&& installed is Some ==> target == installed->0
            },
        },
{
}

/// A service that is not in the table launches and explains.
pub proof fn law_unknown_service_explains(
    app: Seq<char>,
    installed: Option<Seq<char>>,
    id: Seq<char>,
    kind: Option<Seq<char>>,
)
    requires
        id.len() > 0,
        !text::occurs("://"@, id),
        found(app) is None,
    ensures
        resolved(app, installed, Some(id), kind) == (LaunchView::AppOnly {
            target: fallback(app, installed),
            why: Some(why_unknown(app)),
        }),
{
}

/// A service whose entry has no link launches and explains, whatever the kind.
pub proof fn law_dead_link_explains(
    app: Seq<char>,
    installed: Option<Seq<char>>,
    id: Seq<char>,
    kind: Option<Seq<char>>,
)
    requires
        id.len() > 0,
        !text::occurs("://"@, id),
        found(app) is Some,
        found(app)->0.template is None,
        found(app)->0.series is None,
    ensures
        resolved(app, installed, Some(id), kind) == (LaunchView::AppOnly {
            target: fallback(app, installed),
            why: Some(why_dead(app)),
        }),
{
}

/// A letter or a digit: in ASCII by its range, and beyond it as Unicode says.
pub open spec fn letter_or_digit(c: char) -> bool {
    if c <= '\u{7f}' {
        ('0' <= c && c <= '9') || ('a' <= c && c <= 'z') || ('A' <= c && c <= 'Z')
    } else {
        text::unicode_alphanumeric(c)
    }
}

/// A name is compared by the letters and digits of its lower case, every one of them and nothing
/// else, in order.
pub proof fn law_names_compared(s: Seq<char>)
    ensures
        normal(s) == text::lowercase(s).filter(|c: char| letter_or_digit(c)),
{
    lemma_kept(text::lowercase(s));
}

proof fn lemma_kept(s: Seq<char>)
    ensures
        kept(s) == s.filter(|c: char| letter_or_digit(c)),
    decreases s.len(),
{
    reveal(Seq::filter);
    if s.len() > 0 {
        lemma_kept(s.drop_last());
    } else {
        assert(kept(s) =~= s);
    }
}

/// A service goes by a name exactly where the name begins with what one of its aliases is compared
/// by; and of some services the first that goes by a name is the one that is meant.
pub proof fn law_first_service_is_meant(from: Seq<ServiceView>, name: Seq<char>)
    ensures
        match first_by(from, name) {
            Some(service) => exists|i: int|
                {
                    &&& 0 <= i < from.len()
                    &&& #[trigger] from[i] == service
                    &&& called(from[i], name)
                    &&& forall|j: int| 0 <= j < i ==> !called(#[trigger] from[j], name)
                },
            None => forall|j: int| 0 <= j < from.len() ==> !called(#[trigger] from[j], name),
        },
    decreases from.len(),
{
    if from.len() > 0 {
        lemma_called(from[0], name);
        if called(from[0], name) {
            assert(from[0] == first_by(from, name)->0);
        } else {
            let rest = from.skip(1);
            law_first_service_is_meant(rest, name);
            match first_by(rest, name) {
                Some(service) => {
                    let i = choose|i: int|
                        {
                            &&& 0 <= i < rest.len()
                            &&& #[trigger] rest[i] == service
                            &&& called(rest[i], name)
                            &&& forall|j: int| 0 <= j < i ==> !called(#[trigger] rest[j], name)
                        };
                    assert(from[i + 1] == rest[i]);
                    assert forall|j: int| 0 <= j < i + 1 implies !called(#[trigger] from[j], name) by {
                        if j > 0 {
                            assert(rest[j - 1] == from[j]);
                        }
                    }
                },
                None => {
                    assert forall|j: int| 0 <= j < from.len() implies !called(
                        #[trigger] from[j],
                        name,
                    ) by {
                        if j > 0 {
                            assert(rest[j - 1] == from[j]);
                        }
                    }
                },
            }
        }
    }
}

/// One of the aliases of a service, as it is compared, is the front of a name.
pub open spec fn called(service: ServiceView, name: Seq<char>) -> bool {
    exists|i: int|
        0 <= i < service.aliases.len() && normal(#[trigger] service.aliases[i]).is_prefix_of(name)
}

proof fn lemma_called(service: ServiceView, name: Seq<char>)
    ensures
        goes_by(service, name) == called(service, name),
{
    assert forall|i: int| 0 <= i < service.aliases.len() implies text::begins(
        normal(#[trigger] service.aliases[i]),
        name,
    ) == normal(service.aliases[i]).is_prefix_of(name) by {
        text::law_occurs(normal(service.aliases[i]), name);
    }
    if goes_by(service, name) {
        let i = choose|i: int|
            0 <= i < service.aliases.len() && text::begins(
                normal(#[trigger] service.aliases[i]),
                name,
            );
        assert(normal(service.aliases[i]).is_prefix_of(name));
    }
    if called(service, name) {
        let i = choose|i: int|
            0 <= i < service.aliases.len() && normal(
                #[trigger] service.aliases[i],
            ).is_prefix_of(name);
        assert(text::begins(normal(service.aliases[i]), name));
    }
}

/// A word of lower-case letters.
pub open spec fn is_word(s: Seq<char>) -> bool {
    forall|i: int| 0 <= i < s.len() ==> 'a' <= #[trigger] s[i] && s[i] <= 'z'
}

/// A word is compared by itself, and with something that is no letter or digit put into it by the
/// word.
proof fn lemma_word(a: Seq<char>, mark: Seq<char>, b: Seq<char>)
    requires
        is_word(a),
        is_word(b),
        mark.len() <= 1,
        mark.len() == 1 ==> mark[0] == ' ' || mark[0] == '+',
    ensures
        normal(a + mark + b) == a + b,
{
    let s = a + mark + b;
    let ld = |c: char| letter_or_digit(c);
    assert(is_ascii_chars(s)) by {
        assert forall|i: int| 0 <= i < s.len() implies 0 <= #[trigger] s[i] as nat && (s[i] as nat)
            < 128 by {
            if i < a.len() {
                assert(s[i] == a[i]);
            } else if i >= a.len() + mark.len() {
                assert(s[i] == b[i - a.len() - mark.len()]);
            }
        }
    }
    assert(text::lowercase(s) =~= s) by {
        text::law_lower_case(s);
        assert forall|i: int| 0 <= i < s.len() implies text::lowercase(s)[i] == #[trigger] s[i] by {
            if i < a.len() {
                assert(s[i] == a[i]);
            } else if i >= a.len() + mark.len() {
                assert(s[i] == b[i - a.len() - mark.len()]);
            }
        }
    }
    law_names_compared(s);
    Seq::filter_distributes_over_add(a + mark, b, ld);
    Seq::filter_distributes_over_add(a, mark, ld);
    lemma_word_stays(a);
    lemma_word_stays(b);
    assert(mark.filter(ld) =~= Seq::<char>::empty()) by {
        reveal_with_fuel(Seq::<_>::filter, 2);
        if mark.len() == 1 {
            assert(mark.drop_last() =~= Seq::<char>::empty());
            assert(mark.last() == mark[0]);
        }
    }
    assert(a + Seq::<char>::empty() =~= a);
}

proof fn lemma_word_stays(a: Seq<char>)
    requires
        is_word(a),
    ensures
        a.filter(|c: char| letter_or_digit(c)) == a,
    decreases a.len(),
{
    reveal(Seq::filter);
    if a.len() > 0 {
        assert forall|i: int| 0 <= i < a.drop_last().len() implies 'a'
            <= #[trigger] a.drop_last()[i] && a.drop_last()[i] <= 'z' by {
            assert(a.drop_last()[i] == a[i]);
        }
        lemma_word_stays(a.drop_last());
        assert(a[a.len() - 1] == a.last());
        assert(a.drop_last().push(a.last()) =~= a);
    }
}

/// What the aliases are compared by.
proof fn lemma_aliases()
    ensures
        normal("appletv"@) == "appletv"@,
        normal("apple tv"@) == "appletv"@,
        normal("tv"@) == "tv"@,
        normal("appletvplus"@) == "appletv"@ + "plus"@,
        normal("apple tv+"@) == "appletv"@,
        normal("disney"@) == "disney"@,
        normal("disney+"@) == "disney"@,
        normal("disneyplus"@) == "disney"@ + "plus"@,
        normal("youtube"@) == "youtube"@,
        normal("hulu"@) == "hulu"@,
        normal("peacock"@) == "peacock"@,
        normal("peacock tv"@) == "peacock"@ + "tv"@,
        normal("pluto"@) == "pluto"@,
        normal("pluto tv"@) == "pluto"@ + "tv"@,
        normal("spotify"@) == "spotify"@,
        normal("netflix"@) == "netflix"@,
        normal("paramount"@) == "paramount"@,
        normal("paramount+"@) == "paramount"@,
        normal("paramountplus"@) == "paramount"@ + "plus"@,
{
    reveal_strlit("appletv");
    reveal_strlit("apple tv");
    reveal_strlit("tv");
    reveal_strlit("appletvplus");
    reveal_strlit("apple tv+");
    reveal_strlit("disney");
    reveal_strlit("disney+");
    reveal_strlit("disneyplus");
    reveal_strlit("youtube");
    reveal_strlit("hulu");
    reveal_strlit("peacock");
    reveal_strlit("peacock tv");
    reveal_strlit("pluto");
    reveal_strlit("pluto tv");
    reveal_strlit("spotify");
    reveal_strlit("netflix");
    reveal_strlit("paramount");
    reveal_strlit("paramount+");
    reveal_strlit("paramountplus");
    reveal_strlit("plus");
    reveal_strlit("apple");
    let none = Seq::<char>::empty();
    let space = seq![' '];
    let plus = seq!['+'];
    assert("appletv"@ =~= "apple"@ + none + "tv"@);
    assert("appletv"@ =~= "apple"@ + "tv"@);
    lemma_word("apple"@, none, "tv"@);
    assert("apple tv"@ =~= "apple"@ + space + "tv"@);
    lemma_word("apple"@, space, "tv"@);
    assert("tv"@ =~= "tv"@ + none + none);
    assert("tv"@ + none =~= "tv"@);
    lemma_word("tv"@, none, none);
    assert("appletvplus"@ =~= "appletv"@ + none + "plus"@);
    lemma_word("appletv"@, none, "plus"@);
    lemma_apple_tv_plus();
    assert("disney"@ =~= "disney"@ + none + none);
    assert("disney"@ + none =~= "disney"@);
    lemma_word("disney"@, none, none);
    assert("disney+"@ =~= "disney"@ + plus + none);
    lemma_word("disney"@, plus, none);
    assert("disneyplus"@ =~= "disney"@ + none + "plus"@);
    lemma_word("disney"@, none, "plus"@);
    assert("youtube"@ =~= "youtube"@ + none + none);
    assert("youtube"@ + none =~= "youtube"@);
    lemma_word("youtube"@, none, none);
    assert("hulu"@ =~= "hulu"@ + none + none);
    assert("hulu"@ + none =~= "hulu"@);
    lemma_word("hulu"@, none, none);
    assert("peacock"@ =~= "peacock"@ + none + none);
    assert("peacock"@ + none =~= "peacock"@);
    lemma_word("peacock"@, none, none);
    assert("peacock tv"@ =~= "peacock"@ + space + "tv"@);
    lemma_word("peacock"@, space, "tv"@);
    assert("pluto"@ =~= "pluto"@ + none + none);
    assert("pluto"@ + none =~= "pluto"@);
    lemma_word("pluto"@, none, none);
    assert("pluto tv"@ =~= "pluto"@ + space + "tv"@);
    lemma_word("pluto"@, space, "tv"@);
    assert("spotify"@ =~= "spotify"@ + none + none);
    assert("spotify"@ + none =~= "spotify"@);
    lemma_word("spotify"@, none, none);
    assert("netflix"@ =~= "netflix"@ + none + none);
    assert("netflix"@ + none =~= "netflix"@);
    lemma_word("netflix"@, none, none);
    assert("paramount"@ =~= "paramount"@ + none + none);
    assert("paramount"@ + none =~= "paramount"@);
    lemma_word("paramount"@, none, none);
    assert("paramount+"@ =~= "paramount"@ + plus + none);
    lemma_word("paramount"@, plus, none);
    assert("paramountplus"@ =~= "paramount"@ + none + "plus"@);
    lemma_word("paramount"@, none, "plus"@);
}

/// The one alias with two marks in it.
proof fn lemma_apple_tv_plus()
    ensures
        normal("apple tv+"@) == "appletv"@,
{
    reveal_strlit("apple tv+");
    reveal_strlit("apple");
    reveal_strlit("tv");
    reveal_strlit("appletv");
    let s = "apple tv+"@;
    let ld = |c: char| letter_or_digit(c);
    assert(is_ascii_chars(s));
    text::law_lower_case(s);
    assert(text::lowercase(s) =~= s);
    law_names_compared(s);
    let front = "apple"@ + seq![' '];
    let back = "tv"@ + seq!['+'];
    assert(s =~= front + back);
    Seq::filter_distributes_over_add(front, back, ld);
    Seq::filter_distributes_over_add("apple"@, seq![' '], ld);
    Seq::filter_distributes_over_add("tv"@, seq!['+'], ld);
    lemma_word_stays("apple"@);
    lemma_word_stays("tv"@);
    assert(seq![' '].filter(ld) =~= Seq::<char>::empty() && seq!['+'].filter(ld) =~= Seq::<
        char,
    >::empty()) by {
        reveal_with_fuel(Seq::<_>::filter, 2);
        assert(seq![' '].drop_last() =~= Seq::<char>::empty());
        assert(seq!['+'].drop_last() =~= Seq::<char>::empty());
    }
    assert("apple"@ + Seq::<char>::empty() + ("tv"@ + Seq::<char>::empty()) =~= "appletv"@);
}

/// A name that begins with a word and more begins with the word.
proof fn lemma_longer(a: Seq<char>, b: Seq<char>, name: Seq<char>)
    requires
        (a + b).is_prefix_of(name),
    ensures
        a.is_prefix_of(name),
{
    assert forall|i: int| 0 <= i < a.len() implies a[i] == name[i] by {
        assert((a + b)[i] == name.subrange(0, (a + b).len() as int)[i]);
    }
    assert(a =~= name.subrange(0, a.len() as int));
}

/// What an app is launched by: its bundle id, its link to a title and its link to a series.
pub open spec fn launched_by(
    service: ServiceView,
    bundle: Seq<char>,
    template: Option<Seq<char>>,
    series: Option<Seq<char>>,
) -> bool {
    service.bundle == bundle && service.template == template && service.series == series
}

/// Two words of which neither begins the other do not both begin a name.
proof fn lemma_first_letters(name: Seq<char>)
    ensures
        "appletv"@.is_prefix_of(name) ==> name.len() > 1 && name[0] == 'a',
        "tv"@.is_prefix_of(name) ==> name.len() > 1 && name[0] == 't',
        "disney"@.is_prefix_of(name) ==> name.len() > 1 && name[0] == 'd',
        "youtube"@.is_prefix_of(name) ==> name.len() > 1 && name[0] == 'y',
        "hulu"@.is_prefix_of(name) ==> name.len() > 1 && name[0] == 'h',
        "peacock"@.is_prefix_of(name) ==> name.len() > 1 && name[0] == 'p' && name[1] == 'e',
        "pluto"@.is_prefix_of(name) ==> name.len() > 1 && name[0] == 'p' && name[1] == 'l',
        "spotify"@.is_prefix_of(name) ==> name.len() > 1 && name[0] == 's',
        "netflix"@.is_prefix_of(name) ==> name.len() > 1 && name[0] == 'n',
        "paramount"@.is_prefix_of(name) ==> name.len() > 1 && name[0] == 'p' && name[1] == 'a',
{
    reveal_strlit("appletv");
    reveal_strlit("tv");
    reveal_strlit("disney");
    reveal_strlit("youtube");
    reveal_strlit("hulu");
    reveal_strlit("peacock");
    reveal_strlit("pluto");
    reveal_strlit("spotify");
    reveal_strlit("netflix");
    reveal_strlit("paramount");
    let words = seq![
        "appletv"@,
        "tv"@,
        "disney"@,
        "youtube"@,
        "hulu"@,
        "peacock"@,
        "pluto"@,
        "spotify"@,
        "netflix"@,
        "paramount"@,
    ];
    assert forall|i: int|
        0 <= i < words.len() && (#[trigger] words[i]).is_prefix_of(name) implies name[0]
        == words[i][0] && name[1] == words[i][1] by {
        let w = words[i];
        assert(w[0] == name.subrange(0, w.len() as int)[0]);
        assert(w[1] == name.subrange(0, w.len() as int)[1]);
    }
    assert(words[0] == "appletv"@ && words[1] == "tv"@ && words[2] == "disney"@);
    assert(words[3] == "youtube"@ && words[4] == "hulu"@ && words[5] == "peacock"@);
    assert(words[6] == "pluto"@ && words[7] == "spotify"@ && words[8] == "netflix"@);
    assert(words[9] == "paramount"@);
}

/// By what each service of the table goes.
proof fn lemma_services_called(name: Seq<char>)
    ensures
        services().len() == 9,
        called(services()[0], name) <==> "appletv"@.is_prefix_of(name) || "tv"@.is_prefix_of(name),
        called(services()[1], name) <==> "disney"@.is_prefix_of(name),
        called(services()[2], name) <==> "youtube"@.is_prefix_of(name),
        called(services()[3], name) <==> "hulu"@.is_prefix_of(name),
        called(services()[4], name) <==> "peacock"@.is_prefix_of(name),
        called(services()[5], name) <==> "pluto"@.is_prefix_of(name),
        called(services()[6], name) <==> "spotify"@.is_prefix_of(name),
        called(services()[7], name) <==> "netflix"@.is_prefix_of(name),
        called(services()[8], name) <==> "paramount"@.is_prefix_of(name),
{
    lemma_aliases();
    if ("appletv"@ + "plus"@).is_prefix_of(name) {
        lemma_longer("appletv"@, "plus"@, name);
    }
    if ("disney"@ + "plus"@).is_prefix_of(name) {
        lemma_longer("disney"@, "plus"@, name);
    }
    if ("peacock"@ + "tv"@).is_prefix_of(name) {
        lemma_longer("peacock"@, "tv"@, name);
    }
    if ("pluto"@ + "tv"@).is_prefix_of(name) {
        lemma_longer("pluto"@, "tv"@, name);
    }
    if ("paramount"@ + "plus"@).is_prefix_of(name) {
        lemma_longer("paramount"@, "plus"@, name);
    }
    let all = services();
    assert(all[0].aliases[0] == "appletv"@ && all[0].aliases[2] == "tv"@);
    assert(all[1].aliases[0] == "disney"@);
    assert(all[2].aliases[0] == "youtube"@);
    assert(all[3].aliases[0] == "hulu"@);
    assert(all[4].aliases[0] == "peacock"@);
    assert(all[5].aliases[0] == "pluto"@);
    assert(all[6].aliases[0] == "spotify"@);
    assert(all[7].aliases[0] == "netflix"@);
    assert(all[8].aliases[0] == "paramount"@);
}

/// Which service an app is, by how what it is compared by begins, and what that service is launched
/// by. An app that begins with none of these is not known.
pub proof fn law_services(app: Seq<char>)
    ensures
        ({
            let name = normal(app);
            let service = found(app)->0;
            &&& found(app) is Some <==> {
                ||| "appletv"@.is_prefix_of(name)
                ||| "tv"@.is_prefix_of(name)
                ||| "disney"@.is_prefix_of(name)
                ||| "youtube"@.is_prefix_of(name)
                ||| "hulu"@.is_prefix_of(name)
                ||| "peacock"@.is_prefix_of(name)
                ||| "pluto"@.is_prefix_of(name)
                ||| "spotify"@.is_prefix_of(name)
                ||| "netflix"@.is_prefix_of(name)
                ||| "paramount"@.is_prefix_of(name)
            }
            &&& "appletv"@.is_prefix_of(name) || "tv"@.is_prefix_of(name) ==> launched_by(
                service,
                "com.apple.TVWatchList"@,
                Some("https://tv.apple.com/movie/{id}?action=play"@),
                Some("https://tv.apple.com/show/{id}"@),
            )
            &&& "disney"@.is_prefix_of(name) ==> launched_by(
                service,
                "com.disney.disneyplus"@,
                Some("https://www.disneyplus.com/video/{id}"@),
                None,
            )
            &&& "youtube"@.is_prefix_of(name) ==> launched_by(
                service,
                "com.google.ios.youtube"@,
                Some("youtube://www.youtube.com/watch?v={id}"@),
                None,
            )
            &&& "hulu"@.is_prefix_of(name) ==> launched_by(
                service,
                "com.hulu.plus"@,
                Some("hulu://watch/{id}"@),
                Some("hulu://series/{id}"@),
            )
            &&& "peacock"@.is_prefix_of(name) ==> launched_by(
                service,
                "com.peacocktv.peacock"@,
                Some("https://www.peacocktv.com/watch/playback/vod/{id}"@),
                None,
            )
            &&& "pluto"@.is_prefix_of(name) ==> launched_by(
                service,
                "tv.pluto.ios"@,
                Some("https://pluto.tv/us/live-tv/{id}"@),
                None,
            )
            &&& "spotify"@.is_prefix_of(name) ==> launched_by(
                service,
                "com.spotify.client"@,
                Some("spotify:?uri=spotify:album:{id}&play=true"@),
                None,
            )
            &&& "netflix"@.is_prefix_of(name) ==> launched_by(
                service,
                "com.netflix.Netflix"@,
                None,
                None,
            )
            &&& "paramount"@.is_prefix_of(name) ==> launched_by(
                service,
                "com.cbsvideo.app"@,
                None,
                None,
            )
        }),
{
    let name = normal(app);
    lemma_services_called(name);
    lemma_first_letters(name);
    law_first_service_is_meant(services(), name);
    let all = services();
    match found(app) {
        Some(service) => {
            let i = choose|i: int|
                {
                    &&& 0 <= i < all.len()
                    &&& #[trigger] all[i] == service
                    &&& called(all[i], name)
                    &&& forall|j: int| 0 <= j < i ==> !called(#[trigger] all[j], name)
                };
            assert(i == 0 || i == 1 || i == 2 || i == 3 || i == 4 || i == 5 || i == 6 || i == 7
                || i == 8);
        },
        None => {
            assert(!called(all[0], name) && !called(all[1], name) && !called(all[2], name));
            assert(!called(all[3], name) && !called(all[4], name) && !called(all[5], name));
            assert(!called(all[6], name) && !called(all[7], name) && !called(all[8], name));
        },
    }
}

/// Filling a template leaves what has no brace as it is, and goes on behind it: at `{id}` with the
/// id, and at any other brace with the brace.
pub proof fn law_filling(front: Seq<char>, rest: Seq<char>, id: Seq<char>)
    requires
        !front.contains('{'),
    ensures
        filled(front, id) == front,
        filled(front + seq!['{', 'i', 'd', '}'] + rest, id) == front + id + filled(rest, id),
        !seq!['i', 'd', '}'].is_prefix_of(rest) ==> filled(front + seq!['{'] + rest, id) == front
            + seq!['{'] + filled(rest, id),
    decreases front.len(),
{
    let slot = seq!['{', 'i', 'd', '}'];
    let tail = seq!['i', 'd', '}'];
    let a = front + slot + rest;
    let b = front + seq!['{'] + rest;
    if front.len() == 0 {
        assert(filled(front, id) =~= front);
        assert(a.subrange(0, 4) =~= slot);
        assert(a.skip(4) =~= rest);
        assert(filled(a, id) =~= front + id + filled(rest, id));
        assert(b.skip(1) =~= rest);
        if text::begins(slot, b) {
            assert(b.subrange(0, 4)[1] == slot[1]);
            assert(b.subrange(0, 4)[2] == slot[2]);
            assert(b.subrange(0, 4)[3] == slot[3]);
            assert(rest.subrange(0, 3) =~= tail);
        }
        if !tail.is_prefix_of(rest) {
            assert(filled(b, id) =~= front + seq!['{'] + filled(rest, id));
        }
    } else {
        let first = front[0];
        let more = front.skip(1);
        assert(front.contains(first));
        assert forall|i: int| 0 <= i < more.len() implies more[i] != '{' by {
            assert(front.contains(front[i + 1]));
        }
        law_filling(more, rest, id);
        assert(a.skip(1) =~= more + slot + rest);
        assert(b.skip(1) =~= more + seq!['{'] + rest);
        lemma_no_slot(front, first);
        lemma_no_slot(a, first);
        lemma_no_slot(b, first);
        assert(seq![first] + more =~= front);
        assert(seq![first] + (more + id + filled(rest, id)) =~= front + id + filled(rest, id));
        assert(seq![first] + (more + seq!['{'] + filled(rest, id)) =~= front + seq!['{'] + filled(
            rest,
            id,
        ));
    }
}

/// Where no brace begins a text, no slot does.
proof fn lemma_no_slot(s: Seq<char>, first: char)
    requires
        s.len() > 0,
        s[0] == first,
        first != '{',
    ensures
        !text::begins(seq!['{', 'i', 'd', '}'], s),
{
    let slot = seq!['{', 'i', 'd', '}'];
    if text::begins(slot, s) {
        assert(s.subrange(0, 4)[0] == slot[0]);
    }
}

/// What is launched, by what was asked. Without a title, or with an empty one, the app is, with
/// nothing to say. A title that is a URL is itself. Of an app that is known the title is put into
/// its link, into that for a series where it is a series, a season or an episode and there is one.
/// Else the app is launched and it is said why. The app is launched by what the device reported, or
/// else by what is known of it, or else by its name.
pub proof fn law_launches(
    app: Seq<char>,
    installed: Option<Seq<char>>,
    id: Option<Seq<char>>,
    kind: Option<Seq<char>>,
)
    ensures
        ({
            let r = resolved(app, installed, id, kind);
            let known = found(app);
            let target = if installed is Some {
                installed->0
            } else if known is Some {
                known->0.bundle
            } else {
                app
            };
            let titled = id is Some && id->0.len() > 0;
            let url = exists|a: Seq<char>, b: Seq<char>| id->0 == #[trigger] (a + "://"@ + b);
            let serial = kind == Some("series"@) || kind == Some("season"@) || kind == Some(
                "episode"@,
            );
            let link = if serial && known->0.series is Some {
                known->0.series
            } else {
                known->0.template
            };
            &&& !titled ==> r == (LaunchView::AppOnly { target, why: None })
            &&& titled && url ==> r == LaunchView::DeepLink(id->0)
            &&& titled && !url && known is None ==> r == (LaunchView::AppOnly {
                target,
                why: Some(
                    "opened "@ + app
                        + "; this driver has no deep link for it, so it will be on its home screen"@,
                ),
            })
            &&& titled && !url && known is Some && link is Some ==> r == LaunchView::DeepLink(
                filled(link->0, id->0),
            )
            &&& titled && !url && known is Some && link is None ==> r == (LaunchView::AppOnly {
                target,
                why: Some(
                    "opened "@ + app
                        + " on its home screen — it stopped honouring deep links, so it cannot be sent straight to a title"@,
                ),
            })
        }),
{
    if id is Some {
        text::law_occurs("://"@, id->0);
    }
}

} // verus!
