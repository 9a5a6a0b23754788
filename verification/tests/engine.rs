use blanket_rs::{
    Builder, BuildError, Custom, DependencyGraph, Dependency, Registration, Registry, Resource,
    Root, VirtualFile,
};
use blanket_rs::extract_content;

/// A configurable stand-in resource: an optional claimed path, a
/// configurable equality, optional content and an optional shared
/// dependency, built into a `Custom` resource.
struct MockBuilder {
    path: Option<String>,
    equals: bool,
    content: Option<String>,
    shared: Option<u64>,
}

impl MockBuilder {
    fn new() -> Self {
        Self { path: None, equals: false, content: None, shared: None }
    }
    fn path(mut self, path: &str) -> Self {
        self.path = Some(String::from(path));
        self
    }
    fn equals(mut self, equals: bool) -> Self {
        self.equals = equals;
        self
    }
    fn content(mut self, content: String) -> Self {
        self.content = Some(content);
        self
    }
    fn shared(mut self, shared: u64) -> Self {
        self.shared = Some(shared);
        self
    }
    fn build(self) -> Resource {
        let mut regs: Vec<Registration> = vec![];
        if let Some(id) = self.shared {
            regs.push(Registration::RequireShared(id));
        }
        if let Some(path) = &self.path {
            regs.push(Registration::ReservePath(path.clone()));
        }
        // an "always equal" mock carries a fixed dedup key; the
        // default mock carries none and is never equal
        let key = if self.equals { Some(String::from("mock")) } else { None };
        let _ = self.content;
        Resource::Custom(Custom::new(key, regs))
    }
}

#[test]
fn test_mock_path() {
    const PATH: &str = "/path/to/resource";

    // path defaults to None
    let mock = MockBuilder::new();
    assert_eq!(mock.path, None);

    // path can be set
    let mock = MockBuilder::new().path(PATH);
    assert_eq!(mock.path, Some(String::from(PATH)));
}

#[test]
fn test_mock_equals() {
    // equals defaults to false
    let mock = MockBuilder::new();
    assert_eq!(mock.equals, false);

    // equals can be set
    let mock = MockBuilder::new().equals(true);
    assert_eq!(mock.equals, true);
}

#[test]
fn mod_test_new() {
    // a fresh builder holds only the root sentinel under id 0
    let builder = Builder::new();
    assert_eq!(builder.registry().len(), 1);
    assert_eq!(builder.dependency_graph().is_empty(), true);
    assert_eq!(builder.output().len(), 0);
}

#[test]
fn test_make_dependency() {
    let mut builder = Builder::new();

    // first dependency: ids start after the root sentinel
    let mock = MockBuilder::new().build();
    let dependency = builder.require(mock).unwrap();
    assert_eq!(builder.dependency_graph().is_empty(), true);
    assert_eq!(builder.registry().len(), 2);
    assert_eq!(dependency, 1);

    // second dependency
    let mock = MockBuilder::new().build();
    let dependency = builder.require(mock).unwrap();
    assert_eq!(builder.dependency_graph().is_empty(), true);
    assert_eq!(builder.registry().len(), 3);
    assert_eq!(dependency, 2);
}

#[test]
fn test_require_unique_resources_identical_paths_collide() {
    let mut builder = Builder::new();
    const REGISTRATION_PATH: &str = "identical";

    // add the first mock dependency
    let mock = MockBuilder::new().path(REGISTRATION_PATH).build();
    let result = builder.require(mock);
    assert!(matches!(result, Ok(_)));

    // this should fail because the output path is already registered
    // and the unique mock is configured to be unequal to the existing
    // one
    let unique_mock = MockBuilder::new().path(REGISTRATION_PATH).equals(false).build();
    let result = builder.require(unique_mock);
    assert!(matches!(result, Err(BuildError::PathCollision { .. })));
}

#[test]
fn test_require_identical_resources_identical_paths_ok() {
    let mut builder = Builder::new();
    const REGISTRATION_PATH: &str = "identical";

    // add the first mock dependency
    let mock = MockBuilder::new().path(REGISTRATION_PATH).equals(true).build();
    let result = builder.require(mock);
    assert!(matches!(result, Ok(_)));

    // this should succeed despite being registered at the same output
    // path because the identical mock is configured to be equal to
    // the existing mock
    let identical_mock = MockBuilder::new().path(REGISTRATION_PATH).equals(true).build();
    let result = builder.require(identical_mock);
    assert!(matches!(result, Ok(_)));

    // and the path table still holds a single entry
    assert_eq!(builder.output().len(), 1);
}

#[test]
fn test_require_unique_paths_ok() {
    let mut builder = Builder::new();
    const REGISTRATION_PATH_1: &str = "path1";
    const REGISTRATION_PATH_2: &str = "path2";
    assert_ne!(REGISTRATION_PATH_1, REGISTRATION_PATH_2);

    // add the first mock dependency
    let mock = MockBuilder::new().path(REGISTRATION_PATH_1).build();
    let result = builder.require(mock);
    assert!(matches!(result, Ok(_)));

    // this should succeed because the output path is different,
    // regardless of the equality of the mocks
    let identical_mock = MockBuilder::new().path(REGISTRATION_PATH_2).build();
    let result = builder.require(identical_mock);
    assert!(matches!(result, Ok(_)));
}

#[test]
fn test_common_resource() {
    let mut builder = Builder::new();
    assert_eq!(builder.registry().len(), 1);

    // a common resource, registered once up front
    let common = MockBuilder::new().content(String::from("shared")).build();
    let common_id = builder.require(common).unwrap();
    assert_eq!(common_id, 1);
    assert_eq!(builder.registry().len(), 2);

    // a resource that depends on the common resource
    let dependent = MockBuilder::new().shared(common_id).build();
    let result = builder.require(dependent);
    assert!(result.is_ok());
    assert_eq!(result.unwrap(), 2);
    assert_eq!(builder.registry().len(), 3);

    // the common resource is not duplicated when another resource
    // shares it: only the new dependent is registered
    let dependent = MockBuilder::new().shared(common_id).build();
    let result = builder.require(dependent);
    assert!(result.is_ok());
    assert_eq!(result.unwrap(), 3);
    assert_eq!(builder.registry().len(), 4);
}

#[test]
fn node_test_new() {
    let registry = Registry::new();
    assert_eq!(registry.len(), 0);
    assert_eq!(registry.contains(0), false);
}

#[test]
fn test_add_reference() {
    let mut registry = Registry::new();
    let id = registry.register(Resource::Root(Root::new()));
    assert_eq!(id, 0);
    assert_eq!(registry.len(), 1);
}

#[test]
fn recursion_limit_exceeded() {
    // a declaration chain deeper than the budget fails cleanly with
    // RecursionLimitExceeded rather than exhausting the stack
    let mut inner = Custom::new(None, vec![]);
    let mut i = 0;
    while i < 1100 {
        inner = Custom::new(
            None,
            vec![Registration::RequireUnique(Resource::Custom(inner))],
        );
        i += 1;
    }
    let mut builder = Builder::new();
    let result = builder.require(Resource::Custom(inner));
    assert!(matches!(result, Err(BuildError::RecursionLimitExceeded)));
}

#[test]
fn recursion_within_limit_ok() {
    // deep but within the budget; kept moderate because every edge
    // re-derives the topological layering
    let mut inner = Custom::new(None, vec![]);
    let mut i = 0;
    while i < 100 {
        inner = Custom::new(
            None,
            vec![Registration::RequireUnique(Resource::Custom(inner))],
        );
        i += 1;
    }
    let mut builder = Builder::new();
    let result = builder.require(Resource::Custom(inner));
    assert!(result.is_ok());
}

#[test]
fn cycle_detected_leaves_graph_unchanged() {
    let mut graph = DependencyGraph::new();
    let a = graph.add_node();
    let b = graph.add_node();
    assert!(matches!(graph.depend_on(a, b), Ok(())));
    let layers_before = graph.topological_layers().clone();
    // closing the cycle must fail and leave the graph as it was
    let result = graph.depend_on(b, a);
    assert_eq!(result, Err(BuildError::CycleDetected { from: b, to: a }));
    assert_eq!(graph.topological_layers(), &layers_before);
    // a self-edge is a cycle too
    assert!(matches!(graph.depend_on(a, a), Err(BuildError::CycleDetected { .. })));
}

#[test]
fn cycle_detected_through_builder() {
    let mut builder = Builder::new();
    let a = builder.require(Resource::Custom(Custom::new(None, vec![]))).unwrap();
    // this resource asks to precede `a` and to depend on `a` at once
    let twisted = Custom::new(
        None,
        vec![Registration::PrecedeShared(a), Registration::RequireShared(a)],
    );
    let result = builder.require(Resource::Custom(twisted));
    assert!(matches!(result, Err(BuildError::CycleDetected { .. })));
}

#[test]
fn require_shared_unknown_id_not_found() {
    let mut builder = Builder::new();
    let resource = Custom::new(None, vec![Registration::RequireShared(99)]);
    let result = builder.require(Resource::Custom(resource));
    assert!(matches!(result, Err(BuildError::NotFound(99))));
}

#[test]
fn layers_respect_dependencies() {
    // every dependency of a node in layer k appears in a layer j < k
    let mut builder = Builder::new();
    let a = builder.require(Resource::Custom(Custom::new(None, vec![]))).unwrap();
    let b = builder
        .require(Resource::Custom(Custom::new(None, vec![Registration::RequireShared(a)])))
        .unwrap();
    let c = builder
        .require(Resource::Custom(Custom::new(
            None,
            vec![Registration::RequireShared(a), Registration::RequireShared(b)],
        )))
        .unwrap();
    let layers = builder.topological_layers();
    let layer_of = |id: u64| -> usize {
        for (k, layer) in layers.iter().enumerate() {
            if layer.contains(&id) {
                return k;
            }
        }
        panic!("id not listed in any layer");
    };
    assert!(layer_of(a) < layer_of(b));
    assert!(layer_of(a) < layer_of(c));
    assert!(layer_of(b) < layer_of(c));
    // every registered id appears exactly once
    let mut seen = vec![0usize; builder.registry().len()];
    for layer in layers.iter() {
        for id in layer.iter() {
            seen[*id as usize] += 1;
        }
    }
    assert!(seen.iter().all(|c| *c == 1));
}

#[test]
fn scenario_directory_before_file() {
    // resource A claims "/out/a.txt" and requires (uniquely) resource
    // B, a directory claiming "/out/dir"; generation must place B's
    // layer before A's: layers == [[root], [B], [A]]
    let mut builder = Builder::new();
    let a = Custom::new(
        None,
        vec![
            Registration::RequireUnique(Resource::Directory(blanket_rs::Directory::new(
                String::from("/out/dir"),
            ))),
            Registration::ReservePath(String::from("/out/a.txt")),
        ],
    );
    let a_id = builder.require(Resource::Custom(a)).unwrap();
    assert_eq!(a_id, 1);
    let layers = builder.topological_layers();
    assert_eq!(layers, &vec![vec![0u64], vec![2u64], vec![1u64]]);
}

#[test]
fn scenario_shared_references_single_entry() {
    // two independently-registered shared references to the same node
    // do not create two registry entries
    let mut builder = Builder::new();
    let common = builder.require(Resource::Custom(Custom::new(None, vec![]))).unwrap();
    let first = builder
        .require(Resource::Custom(Custom::new(None, vec![Registration::RequireShared(common)])))
        .unwrap();
    let size_after_first = builder.registry().len();
    let second = builder
        .require(Resource::Custom(Custom::new(None, vec![Registration::RequireShared(common)])))
        .unwrap();
    let size_after_second = builder.registry().len();
    assert_ne!(first, second);
    // only the second dependent itself was added
    assert_eq!(size_after_second, size_after_first + 1);
}

#[test]
fn virtual_file_content_lifecycle() {
    let mut builder = Builder::new();
    let vf = VirtualFile::new(String::from("site/index.txt"));
    assert!(vf.content().is_none());
    let id = builder.require(Resource::VirtualFile(vf)).unwrap();
    // an unknown id is reported as NotFound
    assert!(matches!(
        Registry::set_content(&mut Registry::new(), 7, String::from("x")),
        Err(BuildError::NotFound(7))
    ));
    // content recorded through the registry is visible afterwards
    let mut registry_owner = builder;
    let result = registry_owner.set_virtual_content(id, String::from("hello"));
    assert!(matches!(result, Ok(())));
    match registry_owner.registry().get(id) {
        Some(Resource::VirtualFile(v)) => {
            assert_eq!(v.content(), Some(&String::from("hello")));
        },
        _ => panic!("expected a virtual file"),
    }
}

#[test]
fn extract_content_cases() {
    let dep = Dependency::new(
        4,
        Resource::VirtualFile(VirtualFile {
            path: String::from("p"),
            content: Some(String::from("body")),
        }),
    );
    assert_eq!(extract_content(&dep).unwrap(), String::from("body"));

    let dep = Dependency::new(5, Resource::VirtualFile(VirtualFile::new(String::from("p"))));
    assert!(matches!(
        extract_content(&dep),
        Err(BuildError::GenerationFailed { id: 5, .. })
    ));

    let dep = Dependency::new(6, Resource::Root(Root::new()));
    assert!(matches!(
        extract_content(&dep),
        Err(BuildError::GenerationFailed { id: 6, .. })
    ));
}

#[test]
fn copy_file_requires_parent_directory() {
    let mut builder = Builder::new();
    let file = blanket_rs::CopyFile::new(String::from("src/a.png"), String::from("out/a.png"));
    let id = builder.require(Resource::CopyFile(file)).unwrap();
    assert_eq!(id, 1);
    // the parent directory was registered as its own resource
    match builder.registry().get(2) {
        Some(Resource::Directory(d)) => assert_eq!(d.path, String::from("out")),
        _ => panic!("expected the parent directory resource"),
    }
    // and the file is ordered after the directory
    let layers = builder.topological_layers();
    assert_eq!(layers, &vec![vec![0u64], vec![2u64], vec![1u64]]);
}

#[test]
fn precede_unique_reverses_the_edge() {
    // the child must be generated strictly after the emitting
    // resource, so the emitter's layer comes first
    let mut builder = Builder::new();
    let parent = Custom::new(
        None,
        vec![Registration::PrecedeUnique(Resource::Custom(Custom::new(None, vec![])))],
    );
    let parent_id = builder.require(Resource::Custom(parent)).unwrap();
    assert_eq!(parent_id, 1);
    let layers = builder.topological_layers();
    // the root and the emitter share the first layer; the child waits
    assert_eq!(layers, &vec![vec![0u64, 1u64], vec![2u64]]);
}

#[test]
fn diamond_shares_the_parent_directory() {
    // two copied files into the same output directory both require a
    // directory for "out"; the second claim is recognised as equal
    // and the directory is shared rather than rejected
    let mut builder = Builder::new();
    let first = blanket_rs::CopyFile::new(String::from("src/a.css"), String::from("out/a.css"));
    let second = blanket_rs::CopyFile::new(String::from("src/b.css"), String::from("out/b.css"));
    assert!(builder.require(Resource::CopyFile(first)).is_ok());
    assert!(builder.require(Resource::CopyFile(second)).is_ok());
    // three claims: the two files and the single shared directory
    assert_eq!(builder.output().len(), 3);
}

#[test]
fn copy_file_same_source_and_target_shares_the_claim() {
    // structurally-identical requests to one output path are
    // duplicates; content-divergent requests are a build error
    let mut builder = Builder::new();
    let a = blanket_rs::CopyFile::new(String::from("s.txt"), String::from("out/t.txt"));
    let b = blanket_rs::CopyFile::new(String::from("s.txt"), String::from("out/t.txt"));
    assert!(builder.require(Resource::CopyFile(a)).is_ok());
    assert!(builder.require(Resource::CopyFile(b)).is_ok());

    let c = blanket_rs::CopyFile::new(String::from("other.txt"), String::from("out/t.txt"));
    assert!(matches!(
        builder.require(Resource::CopyFile(c)),
        Err(BuildError::PathCollision { .. })
    ));
}
