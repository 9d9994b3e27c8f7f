pub mod decode;
pub mod request;
pub mod response;
pub mod router;
pub mod strmap;
pub mod text;

pub use decode::url_decode;
pub use request::{HttpRequest, RequestError};
pub use response::HttpResponse;
pub use router::{Route, RouteMatch, Router};
pub use strmap::StrMap;
