//! Routing rules and residency.

use laya::json::{Number, Value};
use laya::question::{Askable, Question, Questions};
use laya::residency::Loaded;
use laya::router::{
    default_models, is_english_code, match_typed_decisions_workflow, ModelName, ModelSpec,
    RouteOptions, Router, RouterBuilder, BUNDLE_REPO, TYPED_DECISION_WORKFLOWS,
};

fn text(s: &str) -> Value {
    Value::String(s.to_string())
}

fn object(fields: Vec<(&str, Value)>) -> Value {
    Value::Object(fields.into_iter().map(|(k, v)| (k.to_string(), v)).collect())
}

fn router() -> Router {
    // Routing decisions never touch the weights, so nothing is loaded here.
    RouterBuilder::new().build()
}

fn questions() -> Questions {
    Questions::new().with("urgent", Question::noul("Is this urgent?"))
}

#[test]
fn a_non_latin_script_goes_to_the_multilingual_checkpoint() {
    let d = router()
        .route(
            &object(vec![("body", text("मुझसे दो बार शुल्क लिया गया"))]),
            &questions(),
            &Default::default(),
        )
        .unwrap();
    assert_eq!(d.model, ModelName::Multilingual);
    assert!(d.reason.contains("devanagari"), "{}", d.reason);
    assert_eq!(
        d.reason,
        "non-Latin script (devanagari, 100% of letters); the English checkpoint cannot read it"
    );
}

#[test]
fn a_script_without_a_name_goes_to_the_multilingual_checkpoint() {
    let d = router()
        .route(&text("\u{13A0}\u{13A1}"), &questions(), &Default::default())
        .unwrap();
    assert_eq!(d.model, ModelName::Multilingual);
    assert_eq!(
        d.reason,
        "non-Latin script (other, 100% of letters); the English checkpoint cannot read it"
    );
}

#[test]
fn english_goes_to_the_english_checkpoint() {
    let d = router()
        .route(
            &text("We were billed twice and would like a refund"),
            &questions(),
            &Default::default(),
        )
        .unwrap();
    assert_eq!(d.model, ModelName::English);
    assert_eq!(d.reason, "English Latin text");
}

#[test]
fn an_explicit_model_wins_over_detection() {
    let d = router()
        .route(&text("मुझसे दो बार शुल्क लिया गया"), &questions(), &RouteOptions::model("english"))
        .unwrap();
    assert_eq!(d.model, ModelName::English);
    assert!(d.detection.is_none());
}

fn workflow(ids: &[&str]) -> Questions {
    Questions::from_pairs(
        ids.iter().map(|id| (id.to_string(), Question::noul("x").into_question())).collect(),
    )
}

#[test]
fn a_workflow_is_only_selected_when_opted_in() {
    let wf = workflow(&["action", "category", "churn_risk", "needs_human", "urgency"]);
    assert_eq!(match_typed_decisions_workflow(&wf), Some("customer_service"));

    let off = router().route(&text("hello there friend"), &wf, &Default::default()).unwrap();
    assert_eq!(off.model, ModelName::English);
    assert_eq!(off.workflow.as_deref(), Some("customer_service"));

    let on = RouterBuilder::new().auto_task_detection(true).build();
    let d = on.route(&text("hello there friend"), &wf, &Default::default()).unwrap();
    assert_eq!(d.model, ModelName::TypedDecisions);
    assert_eq!(
        d.reason,
        "question ids match the \"customer_service\" typed-decisions workflow"
    );
}

#[test]
fn a_forced_choice_still_reports_the_workflow() {
    let wf = workflow(&["action", "category", "churn_risk", "needs_human", "urgency"]);
    let r = RouterBuilder::new().build();
    for opts in [RouteOptions::model("english"), RouteOptions::task("en")] {
        let d = r.route(&text("hello there friend"), &wf, &opts).unwrap();
        assert_eq!(d.model, ModelName::English);
        assert_eq!(d.workflow.as_deref(), Some("customer_service"));
        assert!(d.detection.is_none());
    }
    let d = r.route(&text("hello"), &questions(), &RouteOptions::model("english")).unwrap();
    assert!(d.workflow.is_none());
}

#[test]
fn spelling_does_not_matter_to_names() {
    for s in ["Typed_Decisions", "  TYPED-DECISIONS\t", "typed-decisions"] {
        assert_eq!(ModelName::parse(s).unwrap(), ModelName::TypedDecisions);
    }
    assert!(ModelName::parse("typed decisions").is_err());
}

#[test]
fn workflow_signatures_are_sorted() {
    for (name, sig) in TYPED_DECISION_WORKFLOWS {
        assert!(sig.windows(2).all(|w| w[0] < w[1]), "{name}: {sig:?}");
    }
}

#[test]
fn a_workflow_matches_exactly() {
    // In any order, but with no id missing, replaced or added.
    let wf = workflow(&["urgency", "risk", "outcome", "needs_review", "action"]);
    assert_eq!(match_typed_decisions_workflow(&wf), Some("agent_trace_observability"));
    let missing = workflow(&["urgency", "risk", "outcome", "needs_review"]);
    assert_eq!(match_typed_decisions_workflow(&missing), None);
    let other = workflow(&["urgency", "risk", "outcome", "needs_review", "x"]);
    assert_eq!(match_typed_decisions_workflow(&other), None);
    let more = workflow(&["urgency", "risk", "outcome", "needs_review", "action", "x"]);
    assert_eq!(match_typed_decisions_workflow(&more), None);
}

#[test]
fn a_model_name_honours_format_width() {
    assert_eq!(format!("[{:<14}]", ModelName::English.as_str()), "[english       ]");
    assert_eq!(format!("[{:>14}]", ModelName::TypedDecisions.as_str()), "[typed-decisions]");
}

#[test]
fn aliases_resolve() {
    assert_eq!(ModelName::parse("EN").unwrap(), ModelName::English);
    assert_eq!(ModelName::parse("typed_decisions").unwrap(), ModelName::TypedDecisions);
    assert!(ModelName::parse("gpt").is_err());
}

#[test]
fn every_name_is_parsed_back() {
    for m in ModelName::ALL {
        assert_eq!(ModelName::parse(m.as_str()).unwrap(), m);
    }
    assert_eq!(ModelName::parse("  Laya_Multilingual\n").unwrap(), ModelName::Multilingual);
    assert_eq!(ModelName::from_plain("ml").unwrap(), ModelName::Multilingual);
    assert!(ModelName::from_plain("ML").is_err());
    assert_eq!(
        ModelName::parse("GPT_4").unwrap_err().to_string(),
        "unknown model \"gpt-4\"; choose english, multilingual or typed-decisions"
    );
}

#[test]
fn an_explicit_lang_picks_the_checkpoint_without_detection() {
    for code in ["en-US", "en_US", "EN"] {
        let en = router().route(&text("मुझसे"), &questions(), &RouteOptions::lang(code)).unwrap();
        assert_eq!(en.model, ModelName::English, "{code}");
        assert!(en.detection.is_none());
    }

    let de = router().route(&text("hello there"), &questions(), &RouteOptions::lang("de")).unwrap();
    assert_eq!(de.model, ModelName::Multilingual);
    assert!(de.reason.contains("lang=\"de\""), "{}", de.reason);
}

#[test]
fn language_codes_are_read_to_the_first_dash() {
    assert!(is_english_code("en") && is_english_code("eng-gb") && is_english_code("english"));
    assert!(!is_english_code("") && !is_english_code("-en") && !is_english_code("enx"));
    assert!(is_english_code("en_x-y"));
}

#[test]
fn task_is_an_alias_for_model() {
    let d = router()
        .route(&text("x"), &questions(), &RouteOptions::task("typed_decisions"))
        .unwrap();
    assert_eq!(d.model, ModelName::TypedDecisions);
    assert!(d.reason.starts_with("explicit task="), "{}", d.reason);
    assert!(router().route(&text("x"), &questions(), &RouteOptions::model("gpt")).is_err());
}

#[test]
fn a_letterless_state_goes_to_the_configured_default() {
    let r = RouterBuilder::new().default_model(ModelName::Multilingual).build();
    let d = r
        .route(
            &object(vec![("amount", Value::Number(Number::PosInt(4411)))]),
            &questions(),
            &Default::default(),
        )
        .unwrap();
    assert_eq!(d.model, ModelName::Multilingual);
    assert!(d.reason.contains("no letters"), "{}", d.reason);
}

#[test]
fn decisions_name_where_the_checkpoint_comes_from() {
    let r = RouterBuilder::new()
        .model(ModelName::English, ModelSpec::Dir("/opt/laya".into()))
        .build();
    let d = r.route(&text("hello there friend"), &questions(), &Default::default()).unwrap();
    assert_eq!(d.repo, "/opt/laya");

    let d = r.route(&text("मुझसे"), &questions(), &Default::default()).unwrap();
    assert_eq!(d.repo, format!("{BUNDLE_REPO}/multilingual"));
}

#[test]
fn latin_text_that_is_not_english_says_why() {
    let d = router()
        .route(&text("Der Kunde wurde zweimal belastet"), &questions(), &Default::default())
        .unwrap();
    assert_eq!(d.model, ModelName::Multilingual);
    assert_eq!(d.reason, "Latin script but language looks like \"de\", not English");
    let d = router()
        .route(&text("Zażółć gęślą jaźń"), &questions(), &Default::default())
        .unwrap();
    assert_eq!(
        d.reason,
        "Latin script, language not identified but 53% non-English letters; not safe for the \
         English checkpoint"
    );
}

#[test]
fn overrides_come_in_order() {
    let all = RouteOptions {
        model: Some("multilingual".to_string()),
        task: Some("english".to_string()),
        lang: Some("en".to_string()),
    };
    let d = router().route(&text("x"), &questions(), &all).unwrap();
    assert_eq!(d.model, ModelName::Multilingual);
    assert_eq!(d.reason, "explicit model=\"multilingual\"");
    let two = RouteOptions { model: None, ..all };
    assert_eq!(router().route(&text("x"), &questions(), &two).unwrap().model, ModelName::English);
}

#[test]
fn the_published_checkpoints_are_in_one_repository() {
    let specs = default_models();
    assert_eq!(specs.english.label(), BUNDLE_REPO);
    assert_eq!(specs.multilingual.label(), "convaiinnovations/laya/multilingual");
    assert_eq!(specs.typed_decisions.label(), "convaiinnovations/laya/typed-decisions");
    let b = Router::builder().max_loaded(0).preload(vec![ModelName::English]);
    assert_eq!((b.max_loaded, b.preload.len()), (1, 1));
    assert_eq!(b.max_loaded(4).max_loaded, 4);
}

#[test]
fn nothing_is_resident_until_a_load_is_asked_for() {
    let mut r = Loaded::new(1);
    assert!(r.loaded().is_empty());
    r.unload(None);
    r.unload(Some(ModelName::English));
    assert!(r.loaded().is_empty());
    assert_eq!(r.touch(ModelName::English), None);
}

#[test]
fn preloading_in_steps_keeps_what_is_already_resident() {
    let mut r = Loaded::new(1);
    r.make_room(&vec![ModelName::English]);
    r.insert(ModelName::English, 10);
    r.make_room(&vec![ModelName::Multilingual]);
    r.insert(ModelName::Multilingual, 11);
    assert_eq!(r.loaded(), vec![ModelName::English, ModelName::Multilingual]);
    assert_eq!(r.max(), 2);

    // A later on-demand load reuses the resident agent rather than rebuilding it.
    assert_eq!(r.touch(ModelName::English), Some(10));
    assert_eq!(r.touch(ModelName::English), Some(10));
    assert_eq!(r.loaded(), vec![ModelName::Multilingual, ModelName::English]);
    assert_eq!(r.handles(), vec![11, 10]);
}

#[test]
fn preloading_evicts_nothing_whatever_the_cap_was() {
    for max in 0..4usize {
        let mut r = Loaded::new(max);
        r.insert(ModelName::TypedDecisions, 0);
        let before = r.loaded();
        let names = vec![ModelName::English, ModelName::Multilingual, ModelName::English];
        r.make_room(&names);
        for (handle, name) in names.iter().enumerate() {
            if r.touch(*name).is_none() {
                r.insert(*name, handle + 1);
            }
        }
        let mut after = before;
        after.extend([ModelName::Multilingual, ModelName::English]);
        assert_eq!(r.loaded(), after);
        assert!(max <= r.max() && after.len() <= r.max());
    }
}

#[test]
fn the_least_recently_used_checkpoint_makes_room() {
    let mut r = Loaded::new(2);
    r.insert(ModelName::English, 0);
    r.insert(ModelName::Multilingual, 1);
    assert_eq!(r.touch(ModelName::English), Some(0));
    r.insert(ModelName::TypedDecisions, 2);
    assert_eq!(r.loaded(), vec![ModelName::English, ModelName::TypedDecisions]);
    // A checkpoint that is resident keeps its place when it is made resident again.
    r.insert(ModelName::English, 3);
    assert_eq!(r.handles(), vec![3, 2]);
    r.unload(Some(ModelName::English));
    assert_eq!(r.loaded(), vec![ModelName::TypedDecisions]);
    r.unload(None);
    assert!(r.handles().is_empty());
    // Names that repeat are counted once.
    r.make_room(&vec![ModelName::English, ModelName::English, ModelName::Multilingual]);
    assert_eq!(r.max(), 2);
    r.make_room(&ModelName::ALL.to_vec());
    assert_eq!(r.max(), 3);
}
