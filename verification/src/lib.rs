pub mod dto;
pub mod text;
pub mod encode;
pub mod quote;
pub mod body;
pub mod render;
pub mod mime;
pub mod model;
pub mod fields;
pub mod message;
pub mod cli;
pub mod order;
pub mod thread;
pub mod graph;
pub mod threads;
pub mod envelope;
pub mod batch;
pub mod record;

pub use dto::{
    AddressDto, BodyAlternativeDto, BodyDto, BodyFragmentDto, DiagnosticDto, HeaderDto,
    HeaderScope, MessageDto, MessageFieldsDto, MessagesEnvelopeDto, NestedMessageDto, PartDto,
    QuoteMode, RenderOptions, SourceDto, ThreadDto, ThreadEnvelopeDto, ThreadHintDto,
    ThreadNodeDto, TimeRangeDto, TruncationDto, DEFAULT_MAX_BODY_BYTES, SCHEMA_VERSION,
};
pub use cli::should_print_help_for_no_args;
pub use encode::sha256_hex;
pub use message::{
    build_message_dto, extract_part_bytes, parse_message_bytes, text_looks_like_html,
    MessageError,
};
pub use render::{render_message_text, render_thread_text};
pub use envelope::{build_messages_envelope, build_thread_envelope, sort_diagnostics};
pub use batch::{add_batch_diagnostics, messages_batch_failed, parse_batch, thread_batch_failed, BatchInput};
