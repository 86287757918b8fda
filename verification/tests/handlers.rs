use lol_html::html::{LocalName, Namespace};
use lol_html::rewritable_units::element::EndTagHandler;
use lol_html::rewritable_units::mutations::ContentType;
use lol_html::rewritable_units::token::StartTag;
use lol_html::rewriter::builder::HtmlRewriterBuilder;
use lol_html::rewriter::error::{rewriter_encoding, EncodingError};
use lol_html::rewriter::handlers_dispatcher::{ActionOnCall, CallLog, ContentHandlersDispatcher, HandlerVec};
use lol_html::selectors_vm::stack::ElementDescriptor;
use lol_html::selectors_vm::MatchInfo;


#[test]
fn handler_vec_calls_active_handlers_in_order() {
    let mut handlers: HandlerVec<String> = HandlerVec::new();
    handlers.push("always".to_string(), true, ActionOnCall::Nothing);
    handlers.push("once".to_string(), true, ActionOnCall::Remove);
    handlers.push("inactive".to_string(), false, ActionOnCall::Nothing);
    handlers.push("deactivated".to_string(), true, ActionOnCall::Deactivate);
    assert_eq!(handlers.len(), 4);
    assert!(handlers.has_active());

    let mut recorder = CallLog::new();
    handlers.call_active_handlers(&mut recorder);
    assert_eq!(recorder.indices, vec![0, 1, 3]);
    assert_eq!(handlers.len(), 3);

    let mut recorder = CallLog::new();
    handlers.call_active_handlers(&mut recorder);
    assert_eq!(recorder.indices, vec![0]);

    handlers.inc_user_count(1);
    let mut recorder = CallLog::new();
    handlers.call_active_handlers(&mut recorder);
    assert_eq!(recorder.indices, vec![0, 1]);

    handlers.dec_user_count(1);
    handlers.dec_user_count(0);
    assert!(!handlers.has_active());
}

#[test]
fn capture_flags_follow_active_handlers() {
    let mut dispatcher: ContentHandlersDispatcher<u8, u8, u8, u8, u8> = ContentHandlersDispatcher::new();
    assert_eq!(dispatcher.get_token_capture_flags().bits, 0);

    dispatcher.add_document_content_handlers(Some(1), None, None);
    assert_eq!(dispatcher.get_token_capture_flags().bits, 16);

    let locator = dispatcher.add_selector_associated_handlers(Some(2), Some(3), Some(4));
    assert_eq!(locator.element_handler_idx, Some(0));
    assert_eq!(locator.comment_handler_idx, Some(0));
    assert_eq!(locator.text_handler_idx, Some(0));
    assert_eq!(dispatcher.locators_len(), 1);
    assert_eq!(dispatcher.get_token_capture_flags().bits, 16);

    dispatcher.start_matching(MatchInfo { payload: 0, with_content: true });
    assert_eq!(dispatcher.get_token_capture_flags().bits, 16 | 4 | 2 | 1);

    let mut descriptor = ElementDescriptor::new();
    descriptor.matched_payload.push(0);
    dispatcher.stop_matching(descriptor);
    // The element handler keeps its user until it is called.
    assert_eq!(dispatcher.get_token_capture_flags().bits, 16 | 4);
    assert!(!dispatcher.has_matched_elements_with_removed_content());

    dispatcher.start_matching(MatchInfo { payload: 0, with_content: false });
    assert_eq!(dispatcher.get_token_capture_flags().bits, 16 | 4);
}

#[test]
fn rewriter_encodings() {
    assert_eq!(rewriter_encoding("utf-8").unwrap(), "UTF-8");
    assert_eq!(rewriter_encoding("latin1").unwrap(), "windows-1252");
    assert_eq!(rewriter_encoding("utf-16").unwrap_err(), EncodingError::NonAsciiCompatibleEncoding);
    assert_eq!(rewriter_encoding("no-such").unwrap_err(), EncodingError::UnknownEncoding);
}

#[test]
fn builder_builds_on_supported_encodings() {
    let mut builder: HtmlRewriterBuilder<u8, u8, u8, u8, u8> = HtmlRewriterBuilder::new();
    builder.on_document(Some(1), Some(2), None);
    assert!(builder.build("windows-1251").is_ok());

    let builder: HtmlRewriterBuilder<u8, u8, u8, u8, u8> = HtmlRewriterBuilder::new();
    assert_eq!(builder.build("utf-16").err(), Some(EncodingError::NonAsciiCompatibleEncoding));
    let builder: HtmlRewriterBuilder<u8, u8, u8, u8, u8> = HtmlRewriterBuilder::new();
    assert_eq!(builder.build("bogus").err(), Some(EncodingError::UnknownEncoding));
}

#[test]
fn handlers_are_called_in_registration_order() {
    let mut handlers: HandlerVec<usize> = HandlerVec::new();
    for idx in 0..5 {
        handlers.push(idx, false, ActionOnCall::Nothing);
    }
    for idx in 0..5 {
        handlers.inc_user_count(idx);
    }
    let mut log = CallLog::new();
    handlers.call_active_handlers(&mut log);
    assert_eq!(log.indices, vec![0, 1, 2, 3, 4]);
}

#[test]
fn start_tags_in_removed_content_are_removed() {
    let builder: HtmlRewriterBuilder<u8, u8, u8, EndTagHandler, u8> = HtmlRewriterBuilder::new();
    let (mut vm, mut dispatcher) = builder.build("utf-8").unwrap();
    dispatcher.add_selector_associated_handlers(Some(1), None, None);
    let mut matches = Vec::new();
    let div = LocalName::from_str_without_replacements("div", "utf-8").unwrap();
    assert!(vm.exec_for_start_tag(div, Namespace::Html, &mut matches).is_ok());
    dispatcher.start_matching(MatchInfo { payload: 0, with_content: true });

    let tag = StartTag::new_parsed(b"div".to_vec(), vec![], Namespace::Html, false, b"<div>".to_vec(), "utf-8");
    let mut element = dispatcher.start_tag_element(tag);
    element.set_inner_content("x", ContentType::Text);
    element.set_tag_name("p").unwrap();
    dispatcher.finish_start_tag(element, &mut vm);
    assert!(dispatcher.has_matched_elements_with_removed_content());
    let data = vm.current_element_data_mut().unwrap();
    assert!(data.remove_content);
    assert_eq!(data.end_tag_handler_idx, Some(0));

    let inner = StartTag::new_parsed(b"b".to_vec(), vec![], Namespace::Html, false, b"<b>".to_vec(), "utf-8");
    let (tag, _, _) = dispatcher.start_tag_element(inner).into_parts();
    let mut out = Vec::new();
    tag.to_bytes(&mut out);
    assert!(out.is_empty());
}

#[test]
fn dispatcher_calls_matched_element_handlers_once() {
    let mut dispatcher: ContentHandlersDispatcher<u8, u8, u8, u8, u8> = ContentHandlersDispatcher::new();
    dispatcher.add_selector_associated_handlers(Some(10), None, None);
    dispatcher.add_selector_associated_handlers(Some(11), None, None);
    dispatcher.add_selector_associated_handlers(Some(12), None, None);
    dispatcher.start_matching(MatchInfo { payload: 2, with_content: true });
    dispatcher.start_matching(MatchInfo { payload: 0, with_content: true });

    let mut log = CallLog::new();
    dispatcher.call_element_handlers(&mut log);
    assert_eq!(log.indices, vec![0, 2]);

    // Element handlers are deactivated once called.
    let mut log = CallLog::new();
    dispatcher.call_element_handlers(&mut log);
    assert!(log.indices.is_empty());
}
