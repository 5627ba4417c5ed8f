//! Converts a building-geometry XML dialect (surfaces, openings, spaces and
//! shells described as nested `CartesianPoint`/`PolyLoop` elements) into an
//! in-memory polygon-mesh model: unique-vertex buffers plus flat triangle
//! index lists, grouped by surface and nested opening.

pub mod error;
pub mod mesh;
pub mod model;
pub mod num;
pub mod parse;
pub mod shell;
pub mod xml;

pub use error::BemError;
pub use mesh::polyloop_to_model;
pub use mesh::read_point;
pub use mesh::Model;
pub use mesh::Vertex;
pub use model::Models;
pub use model::Opening;
pub use model::Surface;
pub use parse::parse_bem;
pub use shell::attribute_from_node;
pub use shell::faces_from_polyloop;
pub use shell::shell_geometry_from_node;
pub use shell::spaces_from_node;
pub use shell::AnalyticalShell;
pub use shell::Building;
pub use shell::ClosedShell;
pub use shell::Face;
pub use shell::ShellGeometry;
pub use shell::ShellSurface;
pub use shell::Space;
pub use xml::Attr;
pub use xml::XmlNode;
